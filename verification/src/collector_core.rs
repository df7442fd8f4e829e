//! The registry of rollout sources: which file a source is, whose it is, and how far it was
//! read.
use crate::arith::{max_int, min_int, saturating_add};
use crate::digest::{fingerprint, fingerprint_of, text_fingerprint};
use crate::paths::{path_with_extension, with_extension};
use crate::quota::UnresolvedActivity;
use crate::rollout::{CursorState, CursorView};
use crate::sorting::{sort_rows, sorted};
use crate::table::{
    count_where, first_where, lemma_first_where, lemma_first_where_at, lemma_first_where_none,
    lemma_take_grows,
};
use crate::text::{decimal, decimal_text, joined, same_text, text_opt};
use vstd::prelude::*;
use vstd::slice::slice_subrange;
use vstd::utf8::encode_utf8;

verus! {

pub const BINDING_VERIFIED: &'static str = "verified";

pub const BINDING_INFERRED: &'static str = "inferred";

pub const BINDING_UNRESOLVED: &'static str = "unresolved";

pub const BINDING_QUARANTINED: &'static str = "quarantined";

/// What is known of whose a source is.
#[derive(Clone, Copy, Debug, PartialEq, Eq, Structural)]
pub enum BindingStatus {
    Verified,
    Inferred,
    Unresolved,
    Quarantined,
}

impl BindingStatus {
    pub open spec fn name(self) -> Seq<char> {
        match self {
            BindingStatus::Verified => BINDING_VERIFIED@,
            BindingStatus::Inferred => BINDING_INFERRED@,
            BindingStatus::Unresolved => BINDING_UNRESOLVED@,
            BindingStatus::Quarantined => BINDING_QUARANTINED@,
        }
    }

    pub fn as_str(self) -> (r: &'static str)
        ensures
            r@ == self.name(),
    {
        match self {
            BindingStatus::Verified => BINDING_VERIFIED,
            BindingStatus::Inferred => BINDING_INFERRED,
            BindingStatus::Unresolved => BINDING_UNRESOLVED,
            BindingStatus::Quarantined => BINDING_QUARANTINED,
        }
    }

    /// The status with the given name; one that is not known binds nothing.
    pub fn parse(name: &str) -> (r: BindingStatus)
        ensures
            r == if name@ == BINDING_VERIFIED@ {
                BindingStatus::Verified
            } else if name@ == BINDING_INFERRED@ {
                BindingStatus::Inferred
            } else if name@ == BINDING_QUARANTINED@ {
                BindingStatus::Quarantined
            } else {
                BindingStatus::Unresolved
            },
    {
        if same_text(name, BINDING_VERIFIED) {
            BindingStatus::Verified
        } else if same_text(name, BINDING_INFERRED) {
            BindingStatus::Inferred
        } else if same_text(name, BINDING_QUARANTINED) {
            BindingStatus::Quarantined
        } else {
            BindingStatus::Unresolved
        }
    }
}

/// How a source fared when it was last read.
#[derive(Clone, Copy, Debug, PartialEq, Eq, Structural)]
pub enum SourceCondition {
    Unknown,
    Healthy,
    HistoricalReset,
    Error,
}

impl SourceCondition {
    pub open spec fn name(self) -> Seq<char> {
        match self {
            SourceCondition::Unknown => "unknown"@,
            SourceCondition::Healthy => "healthy"@,
            SourceCondition::HistoricalReset => "historical_reset"@,
            SourceCondition::Error => "error"@,
        }
    }

    pub fn as_str(self) -> (r: &'static str)
        ensures
            r@ == self.name(),
    {
        match self {
            SourceCondition::Unknown => "unknown",
            SourceCondition::Healthy => "healthy",
            SourceCondition::HistoricalReset => "historical_reset",
            SourceCondition::Error => "error",
        }
    }
}

/// A rollout source as it is registered.
#[derive(Debug)]
pub struct RolloutSource {
    pub source_id: String,
    pub canonical_path: String,
    pub file_identity: String,
    pub session_id: Option<String>,
    pub thread_id: Option<String>,
    pub account_key: Option<String>,
    pub binding_status: BindingStatus,
    pub binding_source: String,
    pub binding_confidence: String,
    pub first_seen_at: i64,
    pub first_activity_at: Option<i64>,
    pub last_activity_at: Option<i64>,
    pub last_offset: u64,
    pub last_size: u64,
    pub last_mtime: Option<i64>,
    /// What is known of the session at the offset; nothing before the first line.
    pub cursor: Option<CursorState>,
    pub file_fingerprint: Option<String>,
    pub cursor_prefix_fingerprint: Option<String>,
    pub generation: i64,
    pub parser_version: i64,
    pub condition: SourceCondition,
    pub last_error: Option<String>,
    pub last_error_at: Option<i64>,
    pub updated_at: i64,
}

/// The mathematical value of a [`RolloutSource`].
#[verifier::ext_equal]
pub struct SourceView {
    pub source_id: Seq<char>,
    pub canonical_path: Seq<char>,
    pub file_identity: Seq<char>,
    pub session_id: Option<Seq<char>>,
    pub thread_id: Option<Seq<char>>,
    pub account_key: Option<Seq<char>>,
    pub binding_status: BindingStatus,
    pub binding_source: Seq<char>,
    pub binding_confidence: Seq<char>,
    pub first_seen_at: i64,
    pub first_activity_at: Option<i64>,
    pub last_activity_at: Option<i64>,
    pub last_offset: u64,
    pub last_size: u64,
    pub last_mtime: Option<i64>,
    pub cursor: Option<CursorView>,
    pub file_fingerprint: Option<Seq<char>>,
    pub cursor_prefix_fingerprint: Option<Seq<char>>,
    pub generation: i64,
    pub parser_version: i64,
    pub condition: SourceCondition,
    pub last_error: Option<Seq<char>>,
    pub last_error_at: Option<i64>,
    pub updated_at: i64,
}

pub open spec fn cursor_opt(cursor: Option<CursorState>) -> Option<CursorView> {
    match cursor {
        Some(state) => Some(state@),
        None => None,
    }
}

impl View for RolloutSource {
    type V = SourceView;

    open spec fn view(&self) -> SourceView {
        SourceView {
            source_id: self.source_id@,
            canonical_path: self.canonical_path@,
            file_identity: self.file_identity@,
            session_id: text_opt(self.session_id),
            thread_id: text_opt(self.thread_id),
            account_key: text_opt(self.account_key),
            binding_status: self.binding_status,
            binding_source: self.binding_source@,
            binding_confidence: self.binding_confidence@,
            first_seen_at: self.first_seen_at,
            first_activity_at: self.first_activity_at,
            last_activity_at: self.last_activity_at,
            last_offset: self.last_offset,
            last_size: self.last_size,
            last_mtime: self.last_mtime,
            cursor: cursor_opt(self.cursor),
            file_fingerprint: text_opt(self.file_fingerprint),
            cursor_prefix_fingerprint: text_opt(self.cursor_prefix_fingerprint),
            generation: self.generation,
            parser_version: self.parser_version,
            condition: self.condition,
            last_error: text_opt(self.last_error),
            last_error_at: self.last_error_at,
            updated_at: self.updated_at,
        }
    }
}

pub open spec fn source_views(sources: Seq<RolloutSource>) -> Seq<SourceView> {
    Seq::new(sources.len(), |i: int| sources[i]@)
}

/// A change of a source's binding.
#[derive(Debug)]
pub struct BindingAudit {
    pub source_id: String,
    pub old_account_key: Option<String>,
    pub new_account_key: Option<String>,
    pub old_status: Option<BindingStatus>,
    pub new_status: BindingStatus,
    pub reason: String,
    pub evidence: Option<String>,
    pub changed_at: i64,
}

/// The mathematical value of a [`BindingAudit`].
pub struct BindingAuditView {
    pub source_id: Seq<char>,
    pub old_account_key: Option<Seq<char>>,
    pub new_account_key: Option<Seq<char>>,
    pub old_status: Option<BindingStatus>,
    pub new_status: BindingStatus,
    pub reason: Seq<char>,
    pub evidence: Option<Seq<char>>,
    pub changed_at: i64,
}

impl View for BindingAudit {
    type V = BindingAuditView;

    open spec fn view(&self) -> BindingAuditView {
        BindingAuditView {
            source_id: self.source_id@,
            old_account_key: text_opt(self.old_account_key),
            new_account_key: text_opt(self.new_account_key),
            old_status: self.old_status,
            new_status: self.new_status,
            reason: self.reason@,
            evidence: text_opt(self.evidence),
            changed_at: self.changed_at,
        }
    }
}

pub open spec fn audit_views(audits: Seq<BindingAudit>) -> Seq<BindingAuditView> {
    Seq::new(audits.len(), |i: int| audits[i]@)
}

/// A rollout file as it was found.
pub struct ObservedFile {
    pub canonical_path: String,
    pub raw_path: String,
    /// What tells the file from others on the machine, and stays when it is moved.
    pub identity: String,
    pub modified_at: Option<i64>,
    pub bytes: Vec<u8>,
}

/// The fingerprint of the first `length` bytes, or of all where there are fewer.
pub open spec fn prefix_fingerprint(bytes: Seq<u8>, length: int) -> Seq<char> {
    fingerprint(bytes.subrange(0, min_int(length, bytes.len() as int)))
}

pub fn file_fingerprint(bytes: &Vec<u8>) -> (r: String)
    ensures
        r@ == fingerprint(bytes@),
{
    fingerprint_of(bytes.as_slice())
}

pub fn file_prefix_fingerprint(bytes: &Vec<u8>, length: u64) -> (r: String)
    ensures
        r@ == prefix_fingerprint(bytes@, length as int),
{
    let end: usize = if length >= bytes.len() as u64 {
        bytes.len()
    } else {
        length as usize
    };
    fingerprint_of(slice_subrange(bytes.as_slice(), 0, end))
}

/// The identifier of the source that a file with this identity is.
pub open spec fn source_id_of(identity: Seq<char>) -> Seq<char> {
    "source:"@ + fingerprint(encode_utf8(identity))
}

pub fn source_id_for_identity(identity: &str) -> (r: String)
    ensures
        r@ == source_id_of(identity@),
{
    joined("source:", text_fingerprint(identity).as_str())
}

// ---------------------------------------------------------------------------
// Registration
// ---------------------------------------------------------------------------

/// How well a registered source fits a file: by identity and identifier, by identity alone,
/// by path, or not at all.
pub open spec fn fit(source: SourceView, file: ObservedFile) -> int {
    if source.file_identity == file.identity@ {
        if source.source_id == source_id_of(file.identity@) {
            0
        } else {
            1
        }
    } else if source.canonical_path == file.canonical_path@ || source.canonical_path
        == file.raw_path@ {
        2
    } else {
        3
    }
}

/// The first of the sources that fit a file best.
pub open spec fn best_fit(sources: Seq<SourceView>, file: ObservedFile) -> Option<int> {
    match first_where(sources, |source: SourceView| fit(source, file) == 0) {
        Some(at) => Some(at),
        None => match first_where(sources, |source: SourceView| fit(source, file) == 1) {
            Some(at) => Some(at),
            None => first_where(sources, |source: SourceView| fit(source, file) == 2),
        },
    }
}

pub open spec fn path_changed(source: SourceView, file: ObservedFile) -> bool {
    source.canonical_path != file.canonical_path@ && source.canonical_path != file.raw_path@
}

/// What was read of the source is not what the file begins with. Where no fingerprint of it
/// was kept, a file at the old path counts as another, one that was moved there does not.
pub open spec fn read_part_replaced(source: SourceView, file: ObservedFile) -> bool {
    source.last_offset > 0 && match source.cursor_prefix_fingerprint {
        Some(expected) => prefix_fingerprint(file.bytes@, source.last_offset as int) != expected,
        None => !path_changed(source, file),
    }
}

/// The file is as long as the source was, and holds something else.
pub open spec fn same_size_replaced(source: SourceView, file: ObservedFile) -> bool {
    file.bytes@.len() == source.last_size && match source.file_fingerprint {
        Some(expected) => fingerprint(file.bytes@) != expected,
        None => false,
    }
}

/// A source that was missing when history was set aside, and is back as another file.
pub open spec fn returns_after_reset(source: SourceView, file: ObservedFile) -> bool {
    &&& source.file_identity != file.identity@
    &&& source.binding_status == BindingStatus::Quarantined || source.binding_status
        == BindingStatus::Unresolved
    &&& source.condition == SourceCondition::HistoricalReset
    &&& source.last_offset == 0
}

/// The file is not the one that the source was: another one, or with other content. A source
/// of which nothing is known yet cannot be replaced.
pub open spec fn is_replacement(source: SourceView, file: ObservedFile) -> bool {
    &&& source.file_identity != file.identity@ || read_part_replaced(source, file)
        || same_size_replaced(source, file)
    &&& !returns_after_reset(source, file)
    &&& source.binding_status == BindingStatus::Verified || source.last_offset > 0
        || source.condition != SourceCondition::Unknown
}

/// A source of which nothing is known but its file.
pub open spec fn new_source(
    source_id: Seq<char>,
    canonical_path: Seq<char>,
    identity: Seq<char>,
    binding_source: Seq<char>,
    now: i64,
) -> SourceView {
    SourceView {
        source_id,
        canonical_path,
        file_identity: identity,
        session_id: None,
        thread_id: None,
        account_key: None,
        binding_status: BindingStatus::Unresolved,
        binding_source,
        binding_confidence: "unknown"@,
        first_seen_at: now,
        first_activity_at: None,
        last_activity_at: None,
        last_offset: 0,
        last_size: 0,
        last_mtime: None,
        cursor: None,
        file_fingerprint: None,
        cursor_prefix_fingerprint: None,
        generation: 0,
        parser_version: 0,
        condition: SourceCondition::Unknown,
        last_error: None,
        last_error_at: None,
        updated_at: now,
    }
}

/// A source that was replaced: it keeps its history under another name and is nobody's.
pub open spec fn archived(source: SourceView, now: i64) -> SourceView {
    SourceView {
        canonical_path: source.canonical_path + "#archived:"@ + source.source_id,
        file_identity: source.file_identity + "#archived:"@ + source.source_id,
        account_key: None,
        binding_status: BindingStatus::Quarantined,
        binding_source: "replacement_generation"@,
        binding_confidence: "unknown"@,
        condition: SourceCondition::HistoricalReset,
        last_error: Some("source replacement"@),
        last_error_at: Some(now),
        updated_at: now,
        ..source
    }
}

/// A source that was found again, perhaps at another path or as another file.
pub open spec fn found_again(source: SourceView, file: ObservedFile, now: i64) -> SourceView {
    SourceView {
        canonical_path: file.canonical_path@,
        file_identity: file.identity@,
        generation: if source.file_identity != file.identity@ {
            crate::arith::clamp_i64(source.generation + 1) as i64
        } else {
            source.generation
        },
        updated_at: now,
        ..source
    }
}

/// The identifier of the source that replaces another.
pub open spec fn replacement_id(source: SourceView, file: ObservedFile, now: i64) -> Seq<char> {
    if source.file_identity == file.identity@ {
        source_id_of(
            file.identity@ + ":replacement:"@ + source.source_id + ":"@ + decimal(now as int),
        )
    } else {
        source_id_of(file.identity@)
    }
}

pub open spec fn id_taken(sources: Seq<SourceView>, source_id: Seq<char>) -> bool {
    first_where(sources, |source: SourceView| source.source_id == source_id) is Some
}

/// What came of a registration.
#[derive(Clone, Copy, Debug, PartialEq, Eq, Structural)]
pub enum Registration {
    /// The source at this place is the file.
    Known(usize),
    /// The source at this place is new.
    New(usize),
    /// The source at the first place was archived; the one at the second replaces it.
    Replaced(usize, usize),
}

/// The replacement would take the identifier of another source.
#[derive(Clone, Copy, Debug, PartialEq, Eq, Structural)]
pub enum RegisterError {
    SourceIdTaken,
}

/// What is to be registered for a file: the source that fits best, in its place or replaced;
/// or a new one.
pub open spec fn registered(
    sources: Seq<SourceView>,
    file: ObservedFile,
    now: i64,
) -> Result<(Seq<SourceView>, Registration), RegisterError> {
    match best_fit(sources, file) {
        Some(at) => {
            if is_replacement(sources[at], file) {
                let id = replacement_id(sources[at], file, now);
                if id_taken(sources, id) {
                    Err(RegisterError::SourceIdTaken)
                } else {
                    Ok(
                        (
                            sources.update(at, archived(sources[at], now)).push(
                                new_source(
                                    id,
                                    file.canonical_path@,
                                    file.identity@,
                                    "replacement_generation"@,
                                    now,
                                ),
                            ),
                            Registration::Replaced(at as usize, sources.len() as usize),
                        ),
                    )
                }
            } else {
                Ok(
                    (
                        sources.update(at, found_again(sources[at], file, now)),
                        Registration::Known(at as usize),
                    ),
                )
            }
        },
        None => {
            let id = source_id_of(file.identity@);
            match first_where(sources, |source: SourceView| source.source_id == id) {
                Some(at) => Ok(
                    (
                        sources.update(at, found_again(sources[at], file, now)),
                        Registration::New(at as usize),
                    ),
                ),
                None => Ok(
                    (
                        sources.push(
                            new_source(
                                id,
                                file.canonical_path@,
                                file.identity@,
                                "unresolved"@,
                                now,
                            ),
                        ),
                        Registration::New(sources.len() as usize),
                    ),
                ),
            }
        },
    }
}

fn fit_of(source: &RolloutSource, file: &ObservedFile, proposed: &str) -> (r: u8)
    requires
        proposed@ == source_id_of(file.identity@),
    ensures
        r == fit(source@, *file),
{
    if same_text(source.file_identity.as_str(), file.identity.as_str()) {
        if same_text(source.source_id.as_str(), proposed) {
            0
        } else {
            1
        }
    } else if same_text(source.canonical_path.as_str(), file.canonical_path.as_str()) || same_text(
        source.canonical_path.as_str(),
        file.raw_path.as_str(),
    ) {
        2
    } else {
        3
    }
}

fn find_fit(sources: &Vec<RolloutSource>, file: &ObservedFile, proposed: &str, wanted: u8) -> (r:
    Option<usize>)
    requires
        proposed@ == source_id_of(file.identity@),
    ensures
        match r {
            Some(at) => at < sources.len() && first_where(
                source_views(sources@),
                |source: SourceView| fit(source, *file) == wanted,
            ) == Some(at as int),
            None => first_where(
                source_views(sources@),
                |source: SourceView| fit(source, *file) == wanted,
            ) is None,
        },
{
    let ghost rows = source_views(sources@);
    let ghost pick = |source: SourceView| fit(source, *file) == wanted;
    let mut i: usize = 0;
    while i < sources.len()
        invariant
            i <= sources.len(),
            proposed@ == source_id_of(file.identity@),
            rows == source_views(sources@),
            pick == (|source: SourceView| fit(source, *file) == wanted),
            forall|k: int| 0 <= k < i ==> !pick(#[trigger] rows[k]),
        decreases sources.len() - i,
    {
        if fit_of(&sources[i], file, proposed) == wanted {
            proof {
                lemma_first_where_at(rows, pick, i as int);
            }
            return Some(i);
        }
        i += 1;
    }
    proof {
        lemma_first_where_none(rows, pick);
    }
    None
}

/// The place of the source with the given identifier.
pub fn find_source(sources: &Vec<RolloutSource>, source_id: &str) -> (r: Option<usize>)
    ensures
        match r {
            Some(at) => at < sources.len() && sources@[at as int].source_id@ == source_id@
                && first_where(
                source_views(sources@),
                |source: SourceView| source.source_id == source_id@,
            ) == Some(at as int),
            None => first_where(
                source_views(sources@),
                |source: SourceView| source.source_id == source_id@,
            ) is None,
        },
{
    let ghost rows = source_views(sources@);
    let ghost pick = |source: SourceView| source.source_id == source_id@;
    let mut i: usize = 0;
    while i < sources.len()
        invariant
            i <= sources.len(),
            rows == source_views(sources@),
            pick == (|source: SourceView| source.source_id == source_id@),
            forall|k: int| 0 <= k < i ==> !pick(#[trigger] rows[k]),
        decreases sources.len() - i,
    {
        if same_text(sources[i].source_id.as_str(), source_id) {
            proof {
                lemma_first_where_at(rows, pick, i as int);
            }
            return Some(i);
        }
        i += 1;
    }
    proof {
        lemma_first_where_none(rows, pick);
    }
    None
}

fn find_best_fit(sources: &Vec<RolloutSource>, file: &ObservedFile, proposed: &str) -> (r: Option<
    usize,
>)
    requires
        proposed@ == source_id_of(file.identity@),
    ensures
        match r {
            Some(at) => at < sources.len() && best_fit(source_views(sources@), *file) == Some(
                at as int,
            ),
            None => best_fit(source_views(sources@), *file) is None,
        },
{
    match find_fit(sources, file, proposed, 0) {
        Some(at) => Some(at),
        None => match find_fit(sources, file, proposed, 1) {
            Some(at) => Some(at),
            None => find_fit(sources, file, proposed, 2),
        },
    }
}

fn differs(expected: &Option<String>, found: &str) -> (r: bool)
    ensures
        r == match text_opt(*expected) {
            Some(expected) => found@ != expected,
            None => false,
        },
{
    match expected {
        Some(expected) => !same_text(expected.as_str(), found),
        None => false,
    }
}

fn replaced_by(source: &RolloutSource, file: &ObservedFile) -> (r: bool)
    ensures
        r == is_replacement(source@, *file),
{
    let identity_changed = !same_text(source.file_identity.as_str(), file.identity.as_str());
    let moved = !same_text(source.canonical_path.as_str(), file.canonical_path.as_str())
        && !same_text(source.canonical_path.as_str(), file.raw_path.as_str());
    let prefix_changed = source.last_offset > 0 && match &source.cursor_prefix_fingerprint {
        Some(expected) => !same_text(
            expected.as_str(),
            file_prefix_fingerprint(&file.bytes, source.last_offset).as_str(),
        ),
        None => !moved,
    };
    let full_changed = file.bytes.len() as u64 == source.last_size && differs(
        &source.file_fingerprint,
        file_fingerprint(&file.bytes).as_str(),
    );
    let returning = identity_changed && (source.binding_status == BindingStatus::Quarantined
        || source.binding_status == BindingStatus::Unresolved) && source.condition
        == SourceCondition::HistoricalReset && source.last_offset == 0;
    (identity_changed || prefix_changed || full_changed) && !returning && (source.binding_status
        == BindingStatus::Verified || source.last_offset > 0 || source.condition
        != SourceCondition::Unknown)
}

fn make_source(
    source_id: String,
    canonical_path: &str,
    identity: &str,
    binding_source: &str,
    now: i64,
) -> (r: RolloutSource)
    ensures
        r@ == new_source(source_id@, canonical_path@, identity@, binding_source@, now),
{
    RolloutSource {
        source_id,
        canonical_path: canonical_path.to_owned(),
        file_identity: identity.to_owned(),
        session_id: None,
        thread_id: None,
        account_key: None,
        binding_status: BindingStatus::Unresolved,
        binding_source: binding_source.to_owned(),
        binding_confidence: "unknown".to_owned(),
        first_seen_at: now,
        first_activity_at: None,
        last_activity_at: None,
        last_offset: 0,
        last_size: 0,
        last_mtime: None,
        cursor: None,
        file_fingerprint: None,
        cursor_prefix_fingerprint: None,
        generation: 0,
        parser_version: 0,
        condition: SourceCondition::Unknown,
        last_error: None,
        last_error_at: None,
        updated_at: now,
    }
}

fn archived_name(name: &str, source_id: &str) -> (r: String)
    ensures
        r@ == name@ + "#archived:"@ + source_id@,
{
    let mut r = name.to_owned();
    r.append("#archived:");
    r.append(source_id);
    r
}

impl RolloutSource {
    fn archive(&mut self, now: i64)
        ensures
            final(self)@ == archived(old(self)@, now),
    {
        self.canonical_path = archived_name(self.canonical_path.as_str(), self.source_id.as_str());
        self.file_identity = archived_name(self.file_identity.as_str(), self.source_id.as_str());
        self.account_key = None;
        self.binding_status = BindingStatus::Quarantined;
        self.binding_source = "replacement_generation".to_owned();
        self.binding_confidence = "unknown".to_owned();
        self.condition = SourceCondition::HistoricalReset;
        self.last_error = Some("source replacement".to_owned());
        self.last_error_at = Some(now);
        self.updated_at = now;
    }

    fn find_again(&mut self, file: &ObservedFile, now: i64)
        ensures
            final(self)@ == found_again(old(self)@, *file, now),
    {
        if !same_text(self.file_identity.as_str(), file.identity.as_str()) {
            self.generation = saturating_add(self.generation, 1);
        }
        self.canonical_path = file.canonical_path.clone();
        self.file_identity = file.identity.clone();
        self.updated_at = now;
    }
}

proof fn lemma_source_update(sources: Seq<RolloutSource>, at: int, row: RolloutSource)
    requires
        0 <= at < sources.len(),
    ensures
        source_views(sources.update(at, row)) == source_views(sources).update(at, row@),
{
    assert(source_views(sources.update(at, row)) =~= source_views(sources).update(at, row@));
}

/// The audits of a registration.
pub open spec fn registration_audits(
    audits: Seq<BindingAuditView>,
    sources: Seq<SourceView>,
    after: Seq<SourceView>,
    registration: Registration,
    now: i64,
) -> Seq<BindingAuditView> {
    match registration {
        Registration::Known(_) => audits,
        Registration::New(at) => audits.push(
            BindingAuditView {
                source_id: after[at as int].source_id,
                old_account_key: None,
                new_account_key: None,
                old_status: None,
                new_status: BindingStatus::Unresolved,
                reason: "source_registered"@,
                evidence: None,
                changed_at: now,
            },
        ),
        Registration::Replaced(old, new) => audits.push(
            BindingAuditView {
                source_id: sources[old as int].source_id,
                old_account_key: sources[old as int].account_key,
                new_account_key: None,
                old_status: Some(BindingStatus::Verified),
                new_status: BindingStatus::Quarantined,
                reason: "replacement_generation_quarantined"@,
                evidence: Some(
                    "file identity/fingerprint changed; historical ledger quarantined"@,
                ),
                changed_at: now,
            },
        ).push(
            BindingAuditView {
                source_id: after[new as int].source_id,
                old_account_key: None,
                new_account_key: None,
                old_status: None,
                new_status: BindingStatus::Unresolved,
                reason: "replacement_generation_registered"@,
                evidence: Some("replacement history starts unresolved"@),
                changed_at: now,
            },
        ),
    }
}

fn copy_opt(value: &Option<String>) -> (r: Option<String>)
    ensures
        r == *value,
{
    match value {
        Some(text) => Some(text.clone()),
        None => None,
    }
}

fn push_audit(audits: &mut Vec<BindingAudit>, audit: BindingAudit)
    ensures
        audit_views(final(audits)@) == audit_views(old(audits)@).push(audit@),
{
    let ghost before = audit_views(audits@);
    let ghost view = audit@;
    audits.push(audit);
    assert(audit_views(audits@) =~= before.push(view));
}

/// Registers a file. A file that is not the one that its source was never inherits the
/// source's history: the source is archived, and the file begins as one whose account is not
/// known.
pub fn register_source(
    sources: &mut Vec<RolloutSource>,
    audits: &mut Vec<BindingAudit>,
    file: &ObservedFile,
    now: i64,
) -> (r: Result<Registration, RegisterError>)
    requires
        old(sources).len() < usize::MAX,
    ensures
        match (r, registered(source_views(old(sources)@), *file, now)) {
            (Ok(registration), Ok((after, expected))) => {
                &&& registration == expected
                &&& source_views(final(sources)@) == after
                &&& audit_views(final(audits)@) == registration_audits(
                    audit_views(old(audits)@),
                    source_views(old(sources)@),
                    after,
                    registration,
                    now,
                )
            },
            (Err(error), Err(expected)) => {
                &&& error == expected
                &&& final(sources)@ == old(sources)@
                &&& final(audits)@ == old(audits)@
            },
            _ => false,
        },
{
    let ghost before = source_views(sources@);
    let proposed = source_id_for_identity(file.identity.as_str());
    match find_best_fit(sources, file, proposed.as_str()) {
        Some(at) => {
            if replaced_by(&sources[at], file) {
                let id = if same_text(sources[at].file_identity.as_str(), file.identity.as_str()) {
                    let mut name = file.identity.clone();
                    name.append(":replacement:");
                    name.append(sources[at].source_id.as_str());
                    name.append(":");
                    name.append(decimal_text(now).as_str());
                    source_id_for_identity(name.as_str())
                } else {
                    proposed
                };
                if find_source(sources, id.as_str()).is_some() {
                    return Err(RegisterError::SourceIdTaken);
                }
                let old_id = sources[at].source_id.clone();
                let old_account = copy_opt(&sources[at].account_key);
                let new_id = id.clone();
                let new_at: usize = sources.len();
                let mut row = copy_source(&sources[at]);
                row.archive(now);
                let ghost archived_row = row@;
                proof {
                    lemma_source_update(sources@, at as int, row);
                }
                sources.set(at, row);
                let row = make_source(
                    id,
                    file.canonical_path.as_str(),
                    file.identity.as_str(),
                    "replacement_generation",
                    now,
                );
                let ghost new_row = row@;
                sources.push(row);
                assert(source_views(sources@) =~= before.update(at as int, archived_row).push(
                    new_row,
                ));
                push_audit(
                    audits,
                    BindingAudit {
                        source_id: old_id,
                        old_account_key: old_account,
                        new_account_key: None,
                        old_status: Some(BindingStatus::Verified),
                        new_status: BindingStatus::Quarantined,
                        reason: "replacement_generation_quarantined".to_owned(),
                        evidence: Some(
                            "file identity/fingerprint changed; historical ledger quarantined".to_owned(),
                        ),
                        changed_at: now,
                    },
                );
                push_audit(
                    audits,
                    BindingAudit {
                        source_id: new_id,
                        old_account_key: None,
                        new_account_key: None,
                        old_status: None,
                        new_status: BindingStatus::Unresolved,
                        reason: "replacement_generation_registered".to_owned(),
                        evidence: Some("replacement history starts unresolved".to_owned()),
                        changed_at: now,
                    },
                );
                return Ok(Registration::Replaced(at, new_at));
            }
            let mut row = copy_source(&sources[at]);
            row.find_again(file, now);
            proof {
                lemma_source_update(sources@, at as int, row);
            }
            sources.set(at, row);
            Ok(Registration::Known(at))
        },
        None => {
            let new_id = proposed.clone();
            let at: usize = match find_source(sources, proposed.as_str()) {
                Some(at) => {
                    let mut row = copy_source(&sources[at]);
                    row.find_again(file, now);
                    proof {
                        lemma_source_update(sources@, at as int, row);
                    }
                    sources.set(at, row);
                    at
                },
                None => {
                    let at: usize = sources.len();
                    let row = make_source(
                        proposed,
                        file.canonical_path.as_str(),
                        file.identity.as_str(),
                        "unresolved",
                        now,
                    );
                    let ghost new_row = row@;
                    sources.push(row);
                    assert(source_views(sources@) =~= before.push(new_row));
                    at
                },
            };
            push_audit(
                audits,
                BindingAudit {
                    source_id: new_id,
                    old_account_key: None,
                    new_account_key: None,
                    old_status: None,
                    new_status: BindingStatus::Unresolved,
                    reason: "source_registered".to_owned(),
                    evidence: None,
                    changed_at: now,
                },
            );
            Ok(Registration::New(at))
        },
    }
}

pub fn copy_state(state: &CursorState) -> (r: CursorState)
    ensures
        r == *state,
{
    CursorState {
        parser_version: state.parser_version,
        session_id: copy_opt(&state.session_id),
        thread_id: copy_opt(&state.thread_id),
        turn_id: copy_opt(&state.turn_id),
        model: copy_opt(&state.model),
        reasoning_effort: copy_opt(&state.reasoning_effort),
        speed_mode: copy_opt(&state.speed_mode),
        turn_started_at: state.turn_started_at,
        turn_start_totals: state.turn_start_totals,
        segment_no: state.segment_no,
        segment_base_usage: state.segment_base_usage,
        turn_segment_start_usage: state.turn_segment_start_usage,
        turn_accumulated_usage: state.turn_accumulated_usage,
        last_totals: state.last_totals,
    }
}

pub fn copy_source(source: &RolloutSource) -> (r: RolloutSource)
    ensures
        r == *source,
{
    RolloutSource {
        source_id: source.source_id.clone(),
        canonical_path: source.canonical_path.clone(),
        file_identity: source.file_identity.clone(),
        session_id: copy_opt(&source.session_id),
        thread_id: copy_opt(&source.thread_id),
        account_key: copy_opt(&source.account_key),
        binding_status: source.binding_status,
        binding_source: source.binding_source.clone(),
        binding_confidence: source.binding_confidence.clone(),
        first_seen_at: source.first_seen_at,
        first_activity_at: source.first_activity_at,
        last_activity_at: source.last_activity_at,
        last_offset: source.last_offset,
        last_size: source.last_size,
        last_mtime: source.last_mtime,
        cursor: match &source.cursor {
            Some(state) => Some(copy_state(state)),
            None => None,
        },
        file_fingerprint: copy_opt(&source.file_fingerprint),
        cursor_prefix_fingerprint: copy_opt(&source.cursor_prefix_fingerprint),
        generation: source.generation,
        parser_version: source.parser_version,
        condition: source.condition,
        last_error: copy_opt(&source.last_error),
        last_error_at: source.last_error_at,
        updated_at: source.updated_at,
    }
}

// ---------------------------------------------------------------------------
// Binding
// ---------------------------------------------------------------------------

/// The account that a source is bound to, where that is verified.
pub open spec fn bound_account(source: SourceView) -> Option<Seq<char>> {
    if source.binding_status == BindingStatus::Verified {
        source.account_key
    } else {
        None
    }
}

/// A source that is bound to an account now. A binding that was verified stays as it is.
pub open spec fn bound(
    source: SourceView,
    account_key: Seq<char>,
    binding_source: Seq<char>,
    confidence: Seq<char>,
    now: i64,
) -> SourceView {
    if source.binding_status == BindingStatus::Verified {
        source
    } else {
        SourceView {
            account_key: Some(account_key),
            binding_status: BindingStatus::Verified,
            binding_source,
            binding_confidence: confidence,
            updated_at: now,
            ..source
        }
    }
}

/// The audits after a source was bound.
pub open spec fn binding_audits(
    audits: Seq<BindingAuditView>,
    source: SourceView,
    account_key: Seq<char>,
    reason: Seq<char>,
    evidence: Option<Seq<char>>,
    now: i64,
) -> Seq<BindingAuditView> {
    if source.binding_status == BindingStatus::Verified {
        audits
    } else {
        audits.push(
            BindingAuditView {
                source_id: source.source_id,
                old_account_key: None,
                new_account_key: Some(account_key),
                old_status: Some(source.binding_status),
                new_status: BindingStatus::Verified,
                reason,
                evidence,
                changed_at: now,
            },
        )
    }
}

/// Binds a source to an account. The result is whether it is bound to that account.
pub fn bind_source(
    source: &mut RolloutSource,
    audits: &mut Vec<BindingAudit>,
    account_key: &str,
    binding_source: &str,
    confidence: &str,
    reason: &str,
    evidence: Option<String>,
    now: i64,
) -> (r: bool)
    ensures
        final(source)@ == bound(old(source)@, account_key@, binding_source@, confidence@, now),
        audit_views(final(audits)@) == binding_audits(
            audit_views(old(audits)@),
            old(source)@,
            account_key@,
            reason@,
            text_opt(evidence),
            now,
        ),
        r == (bound_account(final(source)@) == Some(account_key@)),
{
    if source.binding_status == BindingStatus::Verified {
        return match &source.account_key {
            Some(account) => same_text(account.as_str(), account_key),
            None => false,
        };
    }
    let old_status = source.binding_status;
    source.account_key = Some(account_key.to_owned());
    source.binding_status = BindingStatus::Verified;
    source.binding_source = binding_source.to_owned();
    source.binding_confidence = confidence.to_owned();
    source.updated_at = now;
    push_audit(
        audits,
        BindingAudit {
            source_id: source.source_id.clone(),
            old_account_key: None,
            new_account_key: Some(account_key.to_owned()),
            old_status: Some(old_status),
            new_status: BindingStatus::Verified,
            reason: reason.to_owned(),
            evidence,
            changed_at: now,
        },
    );
    true
}

/// A verified binding is immutable: no account takes a source from another.
pub proof fn lemma_verified_binding_is_immutable(
    source: SourceView,
    account_key: Seq<char>,
    binding_source: Seq<char>,
    confidence: Seq<char>,
    now: i64,
)
    requires
        source.binding_status == BindingStatus::Verified,
    ensures
        bound(source, account_key, binding_source, confidence, now) == source,
{
}

// ---------------------------------------------------------------------------
// What has to be read again
// ---------------------------------------------------------------------------

/// The source is registered at one of the file's paths.
pub open spec fn at_path(source: SourceView, canonical_path: Seq<char>, raw_path: Seq<char>) -> bool {
    source.canonical_path == canonical_path || source.canonical_path == raw_path
}

/// The source at a path that was written last.
pub open spec fn latest_at_path(
    sources: Seq<SourceView>,
    canonical_path: Seq<char>,
    raw_path: Seq<char>,
) -> Option<int>
    decreases sources.len(),
{
    if sources.len() == 0 {
        None
    } else {
        let before = latest_at_path(sources.drop_last(), canonical_path, raw_path);
        let last = sources.len() - 1;
        if at_path(sources[last], canonical_path, raw_path) {
            match before {
                Some(at) => if sources[at].updated_at >= sources[last].updated_at {
                    Some(at)
                } else {
                    Some(last)
                },
                None => Some(last),
            }
        } else {
            before
        }
    }
}

/// What can be told of a file without reading it is not what the source was left with.
pub open spec fn looks_changed(
    source: SourceView,
    identity: Seq<char>,
    len: u64,
    modified_at: Option<i64>,
) -> bool {
    source.file_identity != identity || source.last_size != len || source.last_mtime is None
        || source.last_mtime != modified_at
}

/// Whether a file has to be looked into. Most registered files are history and do not change.
pub fn source_needs_refresh(
    sources: &Vec<RolloutSource>,
    canonical_path: &str,
    raw_path: &str,
    identity: &str,
    len: u64,
    modified_at: Option<i64>,
) -> (r: bool)
    ensures
        r == match latest_at_path(source_views(sources@), canonical_path@, raw_path@) {
            Some(at) => looks_changed(source_views(sources@)[at], identity@, len, modified_at),
            None => true,
        },
{
    let ghost all = source_views(sources@);
    let mut best: Option<usize> = None;
    let mut i: usize = 0;
    while i < sources.len()
        invariant
            i <= sources.len(),
            all == source_views(sources@),
            match best {
                Some(at) => at < i && latest_at_path(
                    all.take(i as int),
                    canonical_path@,
                    raw_path@,
                ) == Some(at as int),
                None => latest_at_path(all.take(i as int), canonical_path@, raw_path@) is None,
            },
        decreases sources.len() - i,
    {
        proof {
            assert(all.take(i + 1).drop_last() =~= all.take(i as int));
        }
        if same_text(sources[i].canonical_path.as_str(), canonical_path) || same_text(
            sources[i].canonical_path.as_str(),
            raw_path,
        ) {
            best = match best {
                Some(at) => if sources[at].updated_at >= sources[i].updated_at {
                    Some(at)
                } else {
                    Some(i)
                },
                None => Some(i),
            };
        }
        i += 1;
    }
    assert(all.take(all.len() as int) =~= all);
    match best {
        Some(at) => {
            let unchanged_time = match (sources[at].last_mtime, modified_at) {
                (Some(known), Some(found)) => known == found,
                _ => false,
            };
            !same_text(sources[at].file_identity.as_str(), identity) || sources[at].last_size != len
                || !unchanged_time
        },
        None => true,
    }
}

/// A source whose file has neither moved nor changed in size or time is left alone.
pub proof fn lemma_unchanged_file_is_left_alone(source: SourceView)
    requires
        source.last_mtime is Some,
    ensures
        !looks_changed(source, source.file_identity, source.last_size, source.last_mtime),
{
}

/// The file does not go on where the source was left: it is shorter, begins with something
/// else, or is as long and holds something else. What was read before fingerprints were kept
/// is read again: that is safer than to take a replacement for an addition.
pub open spec fn generation_ended(source: SourceView, file: ObservedFile) -> bool {
    ||| file.bytes@.len() < max_int(source.last_size as int, source.last_offset as int)
    ||| source.last_offset > 0 && match source.cursor_prefix_fingerprint {
        Some(expected) => prefix_fingerprint(file.bytes@, source.last_offset as int) != expected,
        None => true,
    }
    ||| same_size_replaced(source, file)
}

/// The source set back to the front of its file.
pub open spec fn rewound(source: SourceView, now: i64) -> SourceView {
    SourceView {
        last_offset: 0,
        last_size: 0,
        cursor: None,
        file_fingerprint: None,
        cursor_prefix_fingerprint: None,
        generation: crate::arith::clamp_i64(source.generation + 1) as i64,
        updated_at: now,
        ..source
    }
}

pub fn generation_has_ended(source: &RolloutSource, file: &ObservedFile) -> (r: bool)
    ensures
        r == generation_ended(source@, *file),
{
    let len: u64 = file.bytes.len() as u64;
    let prefix_changed = source.last_offset > 0 && match &source.cursor_prefix_fingerprint {
        Some(expected) => !same_text(
            expected.as_str(),
            file_prefix_fingerprint(&file.bytes, source.last_offset).as_str(),
        ),
        None => true,
    };
    len < source.last_size || len < source.last_offset || prefix_changed || (len == source.last_size
        && differs(&source.file_fingerprint, file_fingerprint(&file.bytes).as_str()))
}

impl RolloutSource {
    pub fn rewind(&mut self, now: i64)
        ensures
            final(self)@ == rewound(old(self)@, now),
    {
        self.last_offset = 0;
        self.last_size = 0;
        self.cursor = None;
        self.file_fingerprint = None;
        self.cursor_prefix_fingerprint = None;
        self.generation = saturating_add(self.generation, 1);
        self.updated_at = now;
    }
}

pub fn now_seconds() -> (r: i64) {
    crate::recorder::now_seconds()
}

/// The lock that stands beside a database.
pub fn lock_path_for_database(database_path: &str) -> (r: String)
    ensures
        r@ == path_with_extension(database_path@, "collector.lock"@),
{
    with_extension(database_path, "collector.lock")
}

pub open spec fn source_paths(sources: Seq<RolloutSource>) -> Seq<String> {
    Seq::new(sources.len(), |i: int| sources[i].canonical_path)
}

/// The paths of the known sources, in order. Sources are taken up by their paths and not by
/// their ids, which are hashes: what one source says of an account does not depend on those.
pub fn registered_source_paths(sources: &Vec<RolloutSource>) -> (r: Vec<String>)
    ensures
        r@ == sorted(source_paths(sources@)),
{
    let mut paths: Vec<String> = Vec::new();
    let mut i: usize = 0;
    while i < sources.len()
        invariant
            i <= sources.len(),
            paths@ == source_paths(sources@).take(i as int),
        decreases sources.len() - i,
    {
        paths.push(sources[i].canonical_path.clone());
        assert(source_paths(sources@).take(i + 1) =~= source_paths(sources@).take(i as int).push(
            sources@[i as int].canonical_path,
        ));
        i += 1;
    }
    assert(source_paths(sources@).take(sources@.len() as int) =~= source_paths(sources@));
    sort_rows(paths)
}

/// The source is bound to the account beyond doubt.
pub open spec fn is_owned_by(
    source: RolloutSource,
    source_id: Seq<char>,
    account_key: Seq<char>,
) -> bool {
    &&& source.source_id@ == source_id
    &&& source.binding_status == BindingStatus::Verified
    &&& text_opt(source.account_key) == Some(account_key)
}

/// Whether a log belongs to an account.
pub fn rollout_file_belongs_to_account(
    sources: &Vec<RolloutSource>,
    source_id: &str,
    account_key: &str,
) -> (r: bool)
    ensures
        r == exists|i: int|
            0 <= i < sources@.len() && is_owned_by(
                #[trigger] sources@[i],
                source_id@,
                account_key@,
            ),
{
    let mut i: usize = 0;
    while i < sources.len()
        invariant
            i <= sources.len(),
            forall|k: int|
                0 <= k < i ==> !is_owned_by(#[trigger] sources@[k], source_id@, account_key@),
        decreases sources.len() - i,
    {
        if sources[i].binding_status == BindingStatus::Verified && same_text(
            sources[i].source_id.as_str(),
            source_id,
        ) {
            if let Some(owner) = &sources[i].account_key {
                if same_text(owner.as_str(), account_key) {
                    assert(is_owned_by(sources@[i as int], source_id@, account_key@));
                    return true;
                }
            }
        }
        i += 1;
    }
    false
}

/// A source counts for an account: it is the account's own, or may still become so.
pub open spec fn counts_for(source: SourceView, account_key: Seq<char>) -> bool {
    source.account_key == Some(account_key) || source.binding_status == BindingStatus::Unresolved
}

/// The places, among the first `n` sources, that count for an account.
pub open spec fn places_counting_for(
    sources: Seq<RolloutSource>,
    n: int,
    account_key: Seq<char>,
) -> Seq<usize>
    decreases n,
{
    if n <= 0 {
        Seq::empty()
    } else {
        let before = places_counting_for(sources, n - 1, account_key);
        if counts_for(sources[n - 1]@, account_key) {
            before.push((n - 1) as usize)
        } else {
            before
        }
    }
}

/// The places of the sources that count for an account.
pub fn sources_counting_for(sources: &Vec<RolloutSource>, account_key: &str) -> (r: Vec<usize>)
    ensures
        r@ == places_counting_for(sources@, sources@.len() as int, account_key@),
{
    let mut r: Vec<usize> = Vec::new();
    let mut i: usize = 0;
    while i < sources.len()
        invariant
            i <= sources.len(),
            r@ == places_counting_for(sources@, i as int, account_key@),
        decreases sources.len() - i,
    {
        let own = match &sources[i].account_key {
            Some(key) => same_text(key.as_str(), account_key),
            None => false,
        };
        if own || sources[i].binding_status == BindingStatus::Unresolved {
            r.push(i);
        }
        i += 1;
    }
    r
}

pub open spec fn activity_of(source: RolloutSource) -> UnresolvedActivity {
    UnresolvedActivity {
        first_seen_at: source.first_seen_at,
        first_activity_at: source.first_activity_at,
        last_activity_at: source.last_activity_at,
    }
}

/// When the first `n` sources were at work, of those whose account is not known.
pub open spec fn activity_of_unresolved(
    sources: Seq<RolloutSource>,
    n: int,
) -> Seq<UnresolvedActivity>
    decreases n,
{
    if n <= 0 {
        Seq::empty()
    } else {
        let before = activity_of_unresolved(sources, n - 1);
        if sources[n - 1].binding_status == BindingStatus::Unresolved {
            before.push(activity_of(sources[n - 1]))
        } else {
            before
        }
    }
}

/// When the sources were at work whose account is not known.
pub fn unresolved_activity(sources: &Vec<RolloutSource>) -> (r: Vec<UnresolvedActivity>)
    ensures
        r@ == activity_of_unresolved(sources@, sources@.len() as int),
{
    let mut r: Vec<UnresolvedActivity> = Vec::new();
    let mut i: usize = 0;
    while i < sources.len()
        invariant
            i <= sources.len(),
            r@ == activity_of_unresolved(sources@, i as int),
        decreases sources.len() - i,
    {
        let source = &sources[i];
        if source.binding_status == BindingStatus::Unresolved {
            r.push(
                UnresolvedActivity {
                    first_seen_at: source.first_seen_at,
                    first_activity_at: source.first_activity_at,
                    last_activity_at: source.last_activity_at,
                },
            );
        }
        i += 1;
    }
    r
}

impl SourceCondition {
    /// What a stored name stands for.
    pub open spec fn named(name: Seq<char>) -> SourceCondition {
        if name == "healthy"@ {
            SourceCondition::Healthy
        } else if name == "historical_reset"@ {
            SourceCondition::HistoricalReset
        } else if name == "error"@ {
            SourceCondition::Error
        } else {
            SourceCondition::Unknown
        }
    }

    pub fn parse(name: &str) -> (r: SourceCondition)
        ensures
            r == SourceCondition::named(name@),
    {
        if same_text(name, "healthy") {
            SourceCondition::Healthy
        } else if same_text(name, "historical_reset") {
            SourceCondition::HistoricalReset
        } else if same_text(name, "error") {
            SourceCondition::Error
        } else {
            SourceCondition::Unknown
        }
    }
}

/// A condition that is stored is read back.
pub proof fn lemma_condition_round_trip(value: SourceCondition)
    ensures
        SourceCondition::named(value.name()) == value,
{
    reveal_strlit("unknown");
    reveal_strlit("healthy");
    reveal_strlit("historical_reset");
    reveal_strlit("error");
    assert("unknown"@.len() == 7);
    assert("healthy"@.len() == 7);
    assert("historical_reset"@.len() == 16);
    assert("error"@.len() == 5);
    assert("unknown"@[0] != "healthy"@[0]);
}

/// The place at which a registration leaves the file's source.
pub open spec fn place_of(registration: Registration) -> int {
    match registration {
        Registration::Known(at) => at as int,
        Registration::New(at) => at as int,
        Registration::Replaced(_, at) => at as int,
    }
}

proof fn lemma_best_fit(sources: Seq<SourceView>, file: ObservedFile)
    ensures
        match best_fit(sources, file) {
            Some(at) => {
                &&& 0 <= at < sources.len()
                &&& fit(sources[at], file) < 3
                &&& forall|k: int|
                    0 <= k < sources.len() ==> fit(#[trigger] sources[k], file) >= fit(
                        sources[at],
                        file,
                    )
                &&& forall|k: int|
                    0 <= k < at ==> fit(#[trigger] sources[k], file) > fit(sources[at], file)
            },
            None => forall|k: int| 0 <= k < sources.len() ==> fit(#[trigger] sources[k], file) == 3,
        },
{
    let own = |source: SourceView| fit(source, file) == 0;
    let same = |source: SourceView| fit(source, file) == 1;
    let near = |source: SourceView| fit(source, file) == 2;
    lemma_first_where(sources, own);
    lemma_first_where(sources, same);
    lemma_first_where(sources, near);
    assert forall|k: int| 0 <= k < sources.len() implies {
        &&& own(#[trigger] sources[k]) == (fit(sources[k], file) == 0)
        &&& same(sources[k]) == (fit(sources[k], file) == 1)
        &&& near(sources[k]) == (fit(sources[k], file) == 2)
        &&& 0 <= fit(sources[k], file) <= 3
    } by {}
}

proof fn lemma_id_is_free(sources: Seq<SourceView>, source_id: Seq<char>)
    ensures
        match first_where(sources, |source: SourceView| source.source_id == source_id) {
            Some(at) => 0 <= at < sources.len() && sources[at].source_id == source_id,
            None => forall|k: int|
                0 <= k < sources.len() ==> (#[trigger] sources[k]).source_id != source_id,
        },
{
    let pick = |source: SourceView| source.source_id == source_id;
    lemma_first_where(sources, pick);
    assert forall|k: int| 0 <= k < sources.len() implies pick(#[trigger] sources[k]) == (
    sources[k].source_id == source_id) by {}
}

/// A registered file has a source at its own path and with its own identity. No other source
/// is touched but the one that it replaces, and every source keeps its identifier.
pub proof fn lemma_file_is_registered(sources: Seq<SourceView>, file: ObservedFile, now: i64)
    requires
        sources.len() < usize::MAX,
    ensures
        registered(sources, file, now) matches Ok((after, registration)) ==> {
            &&& 0 <= place_of(registration) < after.len()
            &&& after[place_of(registration)].canonical_path == file.canonical_path@
            &&& after[place_of(registration)].file_identity == file.identity@
            &&& after.len() >= sources.len()
            &&& forall|i: int|
                0 <= i < sources.len() ==> (#[trigger] after[i]).source_id == sources[i].source_id
            &&& forall|i: int|
                0 <= i < sources.len() && i != place_of(registration) && !(
                registration matches Registration::Replaced(old_at, _) && old_at == i)
                    ==> #[trigger] after[i] == sources[i]
        },
{
    lemma_best_fit(sources, file);
    lemma_id_is_free(sources, source_id_of(file.identity@));
}

/// A source that is found again keeps whose it is and how far it was read. Its generation
/// stays while it is the same file, and goes up by one where it is another.
pub proof fn lemma_known_source_keeps_what_it_knows(
    sources: Seq<SourceView>,
    file: ObservedFile,
    now: i64,
)
    requires
        sources.len() < usize::MAX,
    ensures
        registered(sources, file, now) matches Ok((after, registration)) ==> (place_of(registration)
            < sources.len() ==> ({
            let was = sources[place_of(registration)];
            let is = after[place_of(registration)];
            &&& is.account_key == was.account_key
            &&& is.binding_status == was.binding_status
            &&& is.binding_source == was.binding_source
            &&& is.binding_confidence == was.binding_confidence
            &&& is.session_id == was.session_id
            &&& is.thread_id == was.thread_id
            &&& is.last_offset == was.last_offset
            &&& is.last_size == was.last_size
            &&& is.last_mtime == was.last_mtime
            &&& is.cursor == was.cursor
            &&& is.file_fingerprint == was.file_fingerprint
            &&& is.cursor_prefix_fingerprint == was.cursor_prefix_fingerprint
            &&& is.first_seen_at == was.first_seen_at
            &&& is.first_activity_at == was.first_activity_at
            &&& is.last_activity_at == was.last_activity_at
            &&& is.parser_version == was.parser_version
            &&& is.condition == was.condition
            &&& is.last_error == was.last_error
            &&& is.last_error_at == was.last_error_at
            &&& is.updated_at == now
            &&& was.file_identity == file.identity@ ==> is.generation == was.generation
            &&& was.file_identity != file.identity@ && was.generation < i64::MAX
                ==> is.generation == was.generation + 1
        })),
{
    lemma_best_fit(sources, file);
    lemma_id_is_free(sources, source_id_of(file.identity@));
}

/// A file's source is looked for by identity first, by path only where no source has the
/// identity, and of those alike the first one is taken. A file that no source has the identity
/// or the path of is new.
pub proof fn lemma_identity_goes_before_path(
    sources: Seq<SourceView>,
    file: ObservedFile,
    now: i64,
    k: int,
)
    requires
        sources.len() < usize::MAX,
        0 <= k < sources.len(),
    ensures
        registered(sources, file, now) matches Ok((after, registration)) ==> ({
            let found = match registration {
                Registration::Known(at) => Some(at as int),
                Registration::Replaced(at, _) => Some(at as int),
                Registration::New(_) => None,
            };
            let other = sources[k];
            match found {
                Some(at) => {
                    &&& 0 <= at < sources.len()
                    &&& other.file_identity == file.identity@ ==> sources[at].file_identity
                        == file.identity@
                    &&& sources[at].file_identity != file.identity@ ==> (
                    sources[at].canonical_path == file.canonical_path@ || sources[at].canonical_path
                        == file.raw_path@)
                    &&& sources[at].file_identity != file.identity@ && (other.canonical_path
                        == file.canonical_path@ || other.canonical_path == file.raw_path@) ==> at
                        <= k
                    &&& other.file_identity == file.identity@ && other.source_id == "source:"@
                        + fingerprint(encode_utf8(file.identity@)) ==> sources[at].source_id
                        == other.source_id && at <= k
                },
                None => {
                    &&& other.file_identity != file.identity@
                    &&& other.canonical_path != file.canonical_path@
                    &&& other.canonical_path != file.raw_path@
                },
            }
        }),
{
    lemma_best_fit(sources, file);
    assert(0 <= fit(sources[k], file) <= 3);
}

/// A source that begins with a registration has no account, no history and an identifier that
/// no other source has.
pub proof fn lemma_new_source_inherits_nothing(
    sources: Seq<SourceView>,
    file: ObservedFile,
    now: i64,
)
    requires
        sources.len() < usize::MAX,
    ensures
        registered(sources, file, now) matches Ok((after, registration)) ==> (place_of(registration)
            >= sources.len() ==> ({
            let is = after[place_of(registration)];
            &&& place_of(registration) == sources.len()
            &&& after.len() == sources.len() + 1
            &&& is.account_key is None
            &&& is.binding_status == BindingStatus::Unresolved
            &&& is.session_id is None
            &&& is.thread_id is None
            &&& is.last_offset == 0
            &&& is.last_size == 0
            &&& is.cursor is None
            &&& is.file_fingerprint is None
            &&& is.cursor_prefix_fingerprint is None
            &&& is.generation == 0
            &&& is.condition == SourceCondition::Unknown
            &&& is.first_seen_at == now
            &&& is.first_activity_at is None
            &&& is.last_activity_at is None
            &&& forall|i: int|
                0 <= i < sources.len() ==> (#[trigger] sources[i]).source_id != is.source_id
        })),
{
    lemma_best_fit(sources, file);
    lemma_id_is_free(sources, source_id_of(file.identity@));
    if let Some(at) = best_fit(sources, file) {
        lemma_id_is_free(sources, replacement_id(sources[at], file, now));
    }
}

/// A source that is replaced is nobody's any more and stands in no file's way, but keeps what
/// it was read to.
pub proof fn lemma_replaced_source_is_set_aside(
    sources: Seq<SourceView>,
    file: ObservedFile,
    now: i64,
)
    requires
        sources.len() < usize::MAX,
    ensures
        registered(sources, file, now) matches Ok((after, Registration::Replaced(old_at, new_at)))
            ==> {
            let was = sources[old_at as int];
            let is = after[old_at as int];
            &&& old_at < sources.len()
            &&& new_at == sources.len()
            &&& is.account_key is None
            &&& is.binding_status == BindingStatus::Quarantined
            &&& is.condition == SourceCondition::HistoricalReset
            &&& is.last_error is Some
            &&& is.last_error_at == Some(now)
            &&& is.canonical_path == was.canonical_path + "#archived:"@ + was.source_id
            &&& is.file_identity == was.file_identity + "#archived:"@ + was.source_id
            &&& is.last_offset == was.last_offset
            &&& is.cursor == was.cursor
            &&& is.generation == was.generation
            &&& is.session_id == was.session_id
            &&& is.thread_id == was.thread_id
        },
{
    lemma_best_fit(sources, file);
}

/// A source with a verified binding is taken for a file only where the file is the same one and
/// still begins with what was read of it; where it is as long as before, all of it is as it
/// was.
pub proof fn lemma_history_is_kept_only_for_the_same_content(
    sources: Seq<SourceView>,
    file: ObservedFile,
    now: i64,
)
    requires
        sources.len() < usize::MAX,
    ensures
        registered(sources, file, now) matches Ok((_, Registration::Known(at))) ==> ({
            let was = sources[at as int];
            was.binding_status == BindingStatus::Verified ==> {
                &&& was.file_identity == file.identity@
                &&& was.last_offset > 0 && was.last_offset <= file.bytes@.len()
                    && was.cursor_prefix_fingerprint is Some ==> was.cursor_prefix_fingerprint
                    == Some(fingerprint(file.bytes@.subrange(0, was.last_offset as int)))
                &&& was.last_offset > 0 && was.cursor_prefix_fingerprint is None ==> {
                    &&& was.canonical_path != file.canonical_path@
                    &&& was.canonical_path != file.raw_path@
                }
                &&& file.bytes@.len() == was.last_size && was.file_fingerprint is Some
                    ==> was.file_fingerprint == Some(fingerprint(file.bytes@))
            }
        }),
{
    lemma_best_fit(sources, file);
}

/// A source is not replaced by its own file: one with the same identity that begins with what
/// was read of it and is longer than it was, or that is in nothing changed.
pub proof fn lemma_own_file_replaces_nothing(
    sources: Seq<SourceView>,
    file: ObservedFile,
    now: i64,
)
    requires
        sources.len() < usize::MAX,
    ensures
        registered(sources, file, now) matches Ok((_, Registration::Replaced(at, _))) ==> ({
            let was = sources[at as int];
            !{
                &&& was.file_identity == file.identity@
                &&& was.last_offset <= file.bytes@.len()
                &&& was.last_offset > 0 ==> was.cursor_prefix_fingerprint == Some(
                    fingerprint(file.bytes@.subrange(0, was.last_offset as int)),
                )
                &&& file.bytes@.len() > was.last_size || was.file_fingerprint == Some(
                    fingerprint(file.bytes@),
                )
            }
        }),
{
    lemma_best_fit(sources, file);
}

/// The source of a path is the one that was written last, and of those the first.
pub proof fn lemma_path_is_that_of_the_latest(
    sources: Seq<SourceView>,
    canonical_path: Seq<char>,
    raw_path: Seq<char>,
)
    ensures
        match latest_at_path(sources, canonical_path, raw_path) {
            Some(at) => {
                &&& 0 <= at < sources.len()
                &&& sources[at].canonical_path == canonical_path || sources[at].canonical_path
                    == raw_path
                &&& forall|k: int|
                    0 <= k < sources.len() && ((#[trigger] sources[k]).canonical_path
                        == canonical_path || sources[k].canonical_path == raw_path)
                        ==> sources[k].updated_at <= sources[at].updated_at && (k < at
                        ==> sources[k].updated_at < sources[at].updated_at)
            },
            None => forall|k: int|
                0 <= k < sources.len() ==> (#[trigger] sources[k]).canonical_path != canonical_path
                    && sources[k].canonical_path != raw_path,
        },
    decreases sources.len(),
{
    if sources.len() > 0 {
        let front = sources.drop_last();
        lemma_path_is_that_of_the_latest(front, canonical_path, raw_path);
        assert forall|k: int| 0 <= k < front.len() implies #[trigger] sources[k] == front[k] by {}
    }
}

/// A file is left alone only where its identity, its length and its time are all what the
/// source was left with.
pub proof fn lemma_only_unchanged_files_are_left_alone(
    source: SourceView,
    identity: Seq<char>,
    len: u64,
    modified_at: Option<i64>,
)
    ensures
        !looks_changed(source, identity, len, modified_at) <==> {
            &&& identity == source.file_identity
            &&& len == source.last_size
            &&& modified_at is Some
            &&& modified_at == source.last_mtime
        },
{
}

/// A generation goes on only in a file that is no shorter than what was read and begins with
/// exactly that; one that has grown that way goes on.
pub proof fn lemma_generation_goes_on_with_the_same_content(source: SourceView, file: ObservedFile)
    ensures
        !generation_ended(source, file) ==> {
            &&& file.bytes@.len() >= source.last_size
            &&& file.bytes@.len() >= source.last_offset
            &&& source.last_offset > 0 ==> source.cursor_prefix_fingerprint == Some(
                fingerprint(file.bytes@.subrange(0, source.last_offset as int)),
            )
            &&& file.bytes@.len() == source.last_size && source.file_fingerprint is Some
                ==> source.file_fingerprint == Some(fingerprint(file.bytes@))
        },
        file.bytes@.len() > source.last_size && file.bytes@.len() >= source.last_offset && (
        source.last_offset == 0 || source.cursor_prefix_fingerprint == Some(
            fingerprint(file.bytes@.subrange(0, source.last_offset as int)),
        )) ==> !generation_ended(source, file),
{
}

/// A source that is set back has read nothing, is of the next generation, and is still whose
/// it was.
pub proof fn lemma_rewound_source_is_the_same_account(source: SourceView, now: i64)
    ensures
        ({
            let is = rewound(source, now);
            &&& is.last_offset == 0
            &&& is.last_size == 0
            &&& is.cursor is None
            &&& is.file_fingerprint is None
            &&& is.cursor_prefix_fingerprint is None
            &&& source.generation < i64::MAX ==> is.generation == source.generation + 1
            &&& is.updated_at == now
            &&& is.source_id == source.source_id
            &&& is.canonical_path == source.canonical_path
            &&& is.file_identity == source.file_identity
            &&& is.account_key == source.account_key
            &&& is.binding_status == source.binding_status
            &&& is.condition == source.condition
            &&& is.session_id == source.session_id
            &&& is.thread_id == source.thread_id
        }),
{
}

/// Binding a source that was not bound makes it the account's, on the grounds given, and leaves
/// what was read of it. The change is recorded with the status that the source had.
pub proof fn lemma_binding_is_to_the_account(
    source: SourceView,
    audits: Seq<BindingAuditView>,
    account_key: Seq<char>,
    binding_source: Seq<char>,
    confidence: Seq<char>,
    reason: Seq<char>,
    evidence: Option<Seq<char>>,
    now: i64,
)
    requires
        source.binding_status != BindingStatus::Verified,
    ensures
        ({
            let is = bound(source, account_key, binding_source, confidence, now);
            &&& is.account_key == Some(account_key)
            &&& is.binding_status == BindingStatus::Verified
            &&& bound_account(is) == Some(account_key)
            &&& is.binding_source == binding_source
            &&& is.binding_confidence == confidence
            &&& is.updated_at == now
            &&& is.source_id == source.source_id
            &&& is.canonical_path == source.canonical_path
            &&& is.file_identity == source.file_identity
            &&& is.last_offset == source.last_offset
            &&& is.last_size == source.last_size
            &&& is.cursor == source.cursor
            &&& is.cursor_prefix_fingerprint == source.cursor_prefix_fingerprint
            &&& is.file_fingerprint == source.file_fingerprint
            &&& is.generation == source.generation
            &&& is.condition == source.condition
        }),
        bound_account(source) is None,
        ({
            let after = binding_audits(audits, source, account_key, reason, evidence, now);
            &&& after.len() == audits.len() + 1
            &&& forall|i: int| 0 <= i < audits.len() ==> #[trigger] after[i] == audits[i]
            &&& after.last().source_id == source.source_id
            &&& after.last().new_account_key == Some(account_key)
            &&& after.last().old_status == Some(source.binding_status)
            &&& after.last().new_status == BindingStatus::Verified
            &&& after.last().reason == reason
            &&& after.last().evidence == evidence
            &&& after.last().changed_at == now
        }),
{
}

/// A registration is recorded under the source that it names: nothing for one that is known,
/// one entry for a new one, and for a replacement one on each of the two.
pub proof fn lemma_registration_is_recorded(
    sources: Seq<SourceView>,
    audits: Seq<BindingAuditView>,
    file: ObservedFile,
    now: i64,
)
    requires
        sources.len() < usize::MAX,
    ensures
        registered(sources, file, now) matches Ok((after, registration)) ==> ({
            let all = registration_audits(audits, sources, after, registration, now);
            let last = all.last();
            &&& all.len() >= audits.len()
            &&& forall|i: int| 0 <= i < audits.len() ==> #[trigger] all[i] == audits[i]
            &&& match registration {
                Registration::Known(_) => all.len() == audits.len(),
                Registration::New(_) => all.len() == audits.len() + 1,
                Registration::Replaced(old_at, _) => {
                    let first = all[audits.len() as int];
                    &&& all.len() == audits.len() + 2
                    &&& first.source_id == sources[old_at as int].source_id
                    &&& first.old_account_key == sources[old_at as int].account_key
                    &&& first.new_account_key is None
                    &&& first.new_status == BindingStatus::Quarantined
                    &&& first.changed_at == now
                },
            }
            &&& !(registration is Known) ==> {
                &&& last.source_id == after[place_of(registration)].source_id
                &&& last.new_account_key is None
                &&& last.new_status == BindingStatus::Unresolved
                &&& last.changed_at == now
            }
        }),
{
    lemma_best_fit(sources, file);
}

/// The sources that count for an account are its own and those that nobody is known to own:
/// each of them once, in order, and no other.
pub proof fn lemma_counting_sources_are_own_or_open(
    sources: Seq<RolloutSource>,
    n: int,
    account_key: Seq<char>,
)
    requires
        0 <= n <= sources.len(),
        sources.len() <= usize::MAX,
    ensures
        ({
            let places = places_counting_for(sources, n, account_key);
            &&& forall|k: int|
                0 <= k < places.len() ==> {
                    let source = sources[#[trigger] places[k] as int];
                    &&& places[k] < n
                    &&& text_opt(source.account_key) == Some(account_key) || source.binding_status
                        == BindingStatus::Unresolved
                }
            &&& forall|j: int, k: int|
                0 <= j < k < places.len() ==> #[trigger] places[j] < #[trigger] places[k]
            &&& forall|i: int|
                0 <= i < n && (text_opt((#[trigger] sources[i]).account_key) == Some(account_key)
                    || sources[i].binding_status == BindingStatus::Unresolved) ==> places.contains(
                    i as usize,
                )
        }),
    decreases n,
{
    if n > 0 {
        lemma_counting_sources_are_own_or_open(sources, n - 1, account_key);
        let before = places_counting_for(sources, n - 1, account_key);
        let places = places_counting_for(sources, n, account_key);
        assert forall|i: int|
            0 <= i < n && (text_opt((#[trigger] sources[i]).account_key) == Some(account_key)
                || sources[i].binding_status == BindingStatus::Unresolved) implies places.contains(
            i as usize,
        ) by {
            if i == n - 1 {
                assert(places.last() == i as usize);
            } else {
                let k = choose|k: int| 0 <= k < before.len() && before[k] == i as usize;
                assert(places[k] == before[k]);
            }
        }
    }
}

/// The activity that is looked at is that of the sources whose account is not known: of each of
/// them, and of no other.
pub proof fn lemma_activity_is_that_of_open_sources(sources: Seq<RolloutSource>, n: int)
    requires
        0 <= n <= sources.len(),
    ensures
        ({
            let found = activity_of_unresolved(sources, n);
            &&& found.len() == count_where(
                sources.take(n),
                |source: RolloutSource| source.binding_status == BindingStatus::Unresolved,
            )
            &&& forall|i: int|
                0 <= i < n && (#[trigger] sources[i]).binding_status == BindingStatus::Unresolved
                    ==> exists|k: int|
                    0 <= k < found.len() && (#[trigger] found[k]).first_seen_at
                        == sources[i].first_seen_at && found[k].first_activity_at
                        == sources[i].first_activity_at && found[k].last_activity_at
                        == sources[i].last_activity_at
        }),
    decreases n,
{
    let open = |source: RolloutSource| source.binding_status == BindingStatus::Unresolved;
    if n > 0 {
        lemma_activity_is_that_of_open_sources(sources, n - 1);
        lemma_take_grows(sources, n);
        let before = activity_of_unresolved(sources, n - 1);
        let found = activity_of_unresolved(sources, n);
        assert forall|i: int|
            0 <= i < n && (#[trigger] sources[i]).binding_status
                == BindingStatus::Unresolved implies exists|k: int|
            0 <= k < found.len() && (#[trigger] found[k]).first_seen_at == sources[i].first_seen_at
                && found[k].first_activity_at == sources[i].first_activity_at
                && found[k].last_activity_at == sources[i].last_activity_at by {
            if i == n - 1 {
                assert(found[before.len() as int] == activity_of(sources[i]));
            } else {
                let k = choose|k: int|
                    0 <= k < before.len() && (#[trigger] before[k]).first_seen_at
                        == sources[i].first_seen_at && before[k].first_activity_at
                        == sources[i].first_activity_at && before[k].last_activity_at
                        == sources[i].last_activity_at;
                assert(found[k] == before[k]);
            }
        }
    } else {
        assert(sources.take(0).len() == 0);
    }
}

/// A source of which anything is known is taken for a file only where the file is the same one
/// and holds what was read; one of which nothing is known yet is never replaced.
pub proof fn lemma_only_unknown_sources_take_any_file(
    sources: Seq<SourceView>,
    file: ObservedFile,
    now: i64,
)
    requires
        sources.len() < usize::MAX,
    ensures
        registered(sources, file, now) matches Ok((_, Registration::Known(at))) ==> ({
            let was = sources[at as int];
            was.condition == SourceCondition::Healthy || was.condition == SourceCondition::Error
                || was.last_offset > 0 ==> {
                &&& was.file_identity == file.identity@
                &&& was.last_offset > 0 && was.last_offset <= file.bytes@.len()
                    && was.cursor_prefix_fingerprint is Some ==> was.cursor_prefix_fingerprint
                    == Some(fingerprint(file.bytes@.subrange(0, was.last_offset as int)))
                &&& file.bytes@.len() == was.last_size && was.file_fingerprint is Some
                    ==> was.file_fingerprint == Some(fingerprint(file.bytes@))
            }
        }),
        registered(sources, file, now) matches Ok((_, Registration::Replaced(at, _))) ==> {
            ||| sources[at as int].binding_status == BindingStatus::Verified
            ||| sources[at as int].last_offset > 0
            ||| sources[at as int].condition != SourceCondition::Unknown
        },
{
    lemma_best_fit(sources, file);
}

} // verus!
