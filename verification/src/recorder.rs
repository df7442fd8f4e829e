//! What a snapshot of the account says, and how it is recorded.
use crate::calendar::{epoch_seconds, seconds_from_number};
use crate::digest::{fingerprint, fingerprint_of};
use crate::json::{
    as_text, either_field, either_field_of, entries_of, entry_views, field, field_of,
    get_either_of, get_of, integer_of, items_of, number_i64, number_percent, opt_view,
    percent_code_of, string_value, text_of, views, Json, JsonView,
};
use crate::models::{is_unresolved_account_key, unresolved_key, Confidence, UNRESOLVED_PREFIX};
use crate::percent::Percent;
use crate::quota::{confidence_name, RateLimitRow, RateSample};
use crate::table::{first_where, lemma_first_where_at, lemma_first_where_none, AccountRow};
use crate::text::{
    ascii_lower, ascii_lowercase, is_prefix, joined, same_text, starts_with, text_opt, trim,
    trimmed,
};
use vstd::prelude::*;
use vstd::utf8::encode_utf8;

verus! {

pub open spec fn snapshot_account(snapshot: JsonView) -> Option<JsonView> {
    field_of(field(snapshot, "account"@), "account"@)
}

/// The account's own identifier, where the snapshot has one that is not blank.
pub open spec fn stable_id(snapshot: JsonView) -> Option<Seq<char>> {
    match text_of(either_field_of(snapshot_account(snapshot), "id"@, "accountId"@)) {
        Some(id) => if trimmed(id).len() == 0 {
            None
        } else {
            Some(trimmed(id))
        },
        None => None,
    }
}

pub open spec fn account_email(snapshot: JsonView) -> Seq<char> {
    match text_of(field_of(snapshot_account(snapshot), "email"@)) {
        Some(email) => ascii_lower(trimmed(email)),
        None => ascii_lower(trimmed(""@)),
    }
}

pub open spec fn auth_identity(snapshot: JsonView) -> Seq<char> {
    match text_of(field(snapshot, "codexPath"@)) {
        Some(path) => ascii_lower(trimmed(path)),
        None => ascii_lower(trimmed("codex"@)),
    }
}

/// The key of the account that a snapshot is of: its own identifier; or else the digest of
/// its address and of where it is signed in; or else where it is signed in.
pub open spec fn account_key_of(snapshot: JsonView) -> Seq<char> {
    match stable_id(snapshot) {
        Some(id) => "account:"@ + id,
        None => if account_email(snapshot).len() > 0 {
            "sha256:"@ + fingerprint(
                encode_utf8(account_email(snapshot)) + seq![10u8] + encode_utf8(
                    auth_identity(snapshot),
                ),
            )
        } else {
            "local:"@ + auth_identity(snapshot)
        },
    }
}

fn append_bytes(bytes: &mut Vec<u8>, more: &[u8])
    ensures
        final(bytes)@ == old(bytes)@ + more@,
{
    let mut i: usize = 0;
    assert(bytes@ =~= old(bytes)@ + more@.subrange(0, 0));
    while i < more.len()
        invariant
            i <= more.len(),
            bytes@ == old(bytes)@ + more@.subrange(0, i as int),
        decreases more.len() - i,
    {
        bytes.push(more[i]);
        i += 1;
        assert(more@.subrange(0, i as int) =~= more@.subrange(0, i - 1).push(more@[i - 1]));
        assert(bytes@ =~= old(bytes)@ + more@.subrange(0, i as int));
    }
    assert(more@.subrange(0, more@.len() as int) =~= more@);
}

pub fn snapshot_account_key(snapshot: &Json) -> (r: String)
    ensures
        r@ == account_key_of(snapshot@),
{
    let account = get_of(snapshot.get("account"), "account");
    if let Some(id) = as_text(get_either_of(account, "id", "accountId")) {
        let id = trim(id);
        if !id.as_str().is_empty() {
            return joined("account:", id.as_str());
        }
    }
    let email = match as_text(get_of(account, "email")) {
        Some(email) => ascii_lowercase(trim(email).as_str()),
        None => ascii_lowercase(trim("").as_str()),
    };
    let identity = match as_text(snapshot.get("codexPath")) {
        Some(path) => ascii_lowercase(trim(path).as_str()),
        None => ascii_lowercase(trim("codex").as_str()),
    };
    if !email.as_str().is_empty() {
        let mut bytes: Vec<u8> = Vec::new();
        append_bytes(&mut bytes, email.as_str().as_bytes());
        bytes.push(10);
        append_bytes(&mut bytes, identity.as_str().as_bytes());
        assert(bytes@ =~= encode_utf8(email@) + seq![10u8] + encode_utf8(identity@));
        return joined("sha256:", fingerprint_of(bytes.as_slice()).as_str());
    }
    joined("local:", identity.as_str())
}

/// A snapshot always names an account: its key is never one of an account that is not known.
pub proof fn lemma_snapshot_key_is_resolved(snapshot: JsonView)
    ensures
        !unresolved_key(account_key_of(snapshot)),
{
    reveal_strlit("unresolved:");
    reveal_strlit("account:");
    reveal_strlit("sha256:");
    reveal_strlit("local:");
    let key = account_key_of(snapshot);
    assert(key[0] == 'a' || key[0] == 's' || key[0] == 'l');
    if unresolved_key(key) {
        assert(key.subrange(0, UNRESOLVED_PREFIX@.len() as int)[0] == UNRESOLVED_PREFIX@[0]);
        assert(UNRESOLVED_PREFIX@[0] == 'u');
    }
}

/// Two snapshots whose addresses differ only in ASCII case and surrounding space, of an
/// account without an identifier, are of the same account.
pub proof fn lemma_email_case_is_ignored(a: JsonView, b: JsonView)
    requires
        stable_id(a) is None,
        stable_id(b) is None,
        account_email(a) == account_email(b),
        auth_identity(a) == auth_identity(b),
    ensures
        account_key_of(a) == account_key_of(b),
{
}

/// When a snapshot was fetched: its own time, or else now.
pub open spec fn fetched_at(snapshot: JsonView, now: i64) -> int {
    match integer_of(field(snapshot, "fetchedAt"@)) {
        Some(number) => epoch_seconds(number),
        None => now as int,
    }
}

pub fn timestamp(value: Option<&Json>, now: i64) -> (r: i64)
    ensures
        r == match integer_of(opt_view(value)) {
            Some(number) => epoch_seconds(number),
            None => now as int,
        },
{
    match number_i64(value) {
        Some(number) => seconds_from_number(number),
        None => now,
    }
}

// ---------------------------------------------------------------------------
// Accounts
// ---------------------------------------------------------------------------

#[derive(Debug)]
pub struct AccountRecord {
    pub account_key: String,
    pub display_name: Option<String>,
    pub email: Option<String>,
    pub plan_type: Option<String>,
    pub auth_identity: Option<String>,
    pub first_seen_at: i64,
    pub last_seen_at: i64,
}

/// The mathematical value of an [`AccountRecord`].
pub struct AccountView {
    pub account_key: Seq<char>,
    pub display_name: Option<Seq<char>>,
    pub email: Option<Seq<char>>,
    pub plan_type: Option<Seq<char>>,
    pub auth_identity: Option<Seq<char>>,
    pub first_seen_at: int,
    pub last_seen_at: int,
}

impl View for AccountRecord {
    type V = AccountView;

    open spec fn view(&self) -> AccountView {
        AccountView {
            account_key: self.account_key@,
            display_name: text_opt(self.display_name),
            email: text_opt(self.email),
            plan_type: text_opt(self.plan_type),
            auth_identity: text_opt(self.auth_identity),
            first_seen_at: self.first_seen_at as int,
            last_seen_at: self.last_seen_at as int,
        }
    }
}

pub open spec fn account_views(accounts: Seq<AccountRecord>) -> Seq<AccountView> {
    Seq::new(accounts.len(), |i: int| accounts[i]@)
}

pub open spec fn either_text(new: Option<Seq<char>>, old: Option<Seq<char>>) -> Option<Seq<char>> {
    match new {
        Some(text) => Some(text),
        None => old,
    }
}

/// What a snapshot says of the account.
pub open spec fn described(snapshot: JsonView, account_key: Seq<char>, seen_at: int) -> AccountView {
    let account = snapshot_account(snapshot);
    AccountView {
        account_key,
        display_name: text_of(either_field_of(account, "name"@, "displayName"@)),
        email: text_of(field_of(account, "email"@)),
        plan_type: text_of(field_of(account, "planType"@)),
        auth_identity: text_of(field(snapshot, "codexPath"@)),
        first_seen_at: seen_at,
        last_seen_at: seen_at,
    }
}

/// The account is the one with the key.
pub open spec fn is_account(account_key: Seq<char>) -> spec_fn(AccountView) -> bool {
    |row: AccountView| row.account_key == account_key
}

/// The accounts after a snapshot: what it does not say of a known account stays.
pub open spec fn accounts_with(accounts: Seq<AccountView>, seen: AccountView) -> Seq<AccountView> {
    match first_where(accounts, is_account(seen.account_key)) {
        Some(at) => accounts.update(
            at,
            AccountView {
                display_name: either_text(seen.display_name, accounts[at].display_name),
                email: either_text(seen.email, accounts[at].email),
                plan_type: either_text(seen.plan_type, accounts[at].plan_type),
                last_seen_at: seen.last_seen_at,
                ..accounts[at]
            },
        ),
        None => accounts.push(seen),
    }
}

/// The accounts after one was seen: it is listed, and was last seen no earlier.
pub open spec fn accounts_seen(
    accounts: Seq<AccountView>,
    account_key: Seq<char>,
    seen_at: int,
) -> Seq<AccountView> {
    match first_where(accounts, is_account(account_key)) {
        Some(at) => accounts.update(
            at,
            AccountView {
                last_seen_at: crate::arith::max_int(accounts[at].last_seen_at, seen_at),
                ..accounts[at]
            },
        ),
        None => accounts.push(
            AccountView {
                account_key,
                display_name: None,
                email: None,
                plan_type: None,
                auth_identity: None,
                first_seen_at: seen_at,
                last_seen_at: seen_at,
            },
        ),
    }
}

fn find_account(accounts: &Vec<AccountRecord>, account_key: &str) -> (r: Option<usize>)
    ensures
        match r {
            Some(at) => at < accounts.len() && first_where(
                account_views(accounts@),
                is_account(account_key@),
            ) == Some(at as int),
            None => first_where(
                account_views(accounts@),
                is_account(account_key@),
            ) is None,
        },
{
    let ghost rows = account_views(accounts@);
    let ghost pick = is_account(account_key@);
    let mut i: usize = 0;
    while i < accounts.len()
        invariant
            i <= accounts.len(),
            rows == account_views(accounts@),
            pick == is_account(account_key@),
            forall|k: int| 0 <= k < i ==> !pick(#[trigger] rows[k]),
        decreases accounts.len() - i,
    {
        if same_text(accounts[i].account_key.as_str(), account_key) {
            proof {
                lemma_first_where_at(rows, pick, i as int);
            }
            return Some(i);
        }
        i += 1;
    }
    proof {
        lemma_first_where_none(rows, pick);
    }
    None
}

fn copy_text(value: &Option<String>) -> (r: Option<String>)
    ensures
        r == *value,
{
    match value {
        Some(text) => Some(text.clone()),
        None => None,
    }
}

fn newer_text(new: Option<String>, old: &Option<String>) -> (r: Option<String>)
    ensures
        text_opt(r) == either_text(text_opt(new), text_opt(*old)),
{
    match new {
        Some(text) => Some(text),
        None => copy_text(old),
    }
}

pub fn record_account_snapshot(
    accounts: &mut Vec<AccountRecord>,
    snapshot: &Json,
    account_key: &str,
    seen_at: i64,
)
    ensures
        account_views(final(accounts)@) == accounts_with(
            account_views(old(accounts)@),
            described(snapshot@, account_key@, seen_at as int),
        ),
{
    let ghost before = account_views(accounts@);
    let account = get_of(snapshot.get("account"), "account");
    let email = string_value(get_of(account, "email"));
    let display_name = string_value(get_either_of(account, "name", "displayName"));
    let plan_type = string_value(get_of(account, "planType"));
    match find_account(accounts, account_key) {
        Some(at) => {
            let row = AccountRecord {
                account_key: accounts[at].account_key.clone(),
                display_name: newer_text(display_name, &accounts[at].display_name),
                email: newer_text(email, &accounts[at].email),
                plan_type: newer_text(plan_type, &accounts[at].plan_type),
                auth_identity: copy_text(&accounts[at].auth_identity),
                first_seen_at: accounts[at].first_seen_at,
                last_seen_at: seen_at,
            };
            let ghost view = row@;
            accounts.set(at, row);
            assert(account_views(accounts@) =~= before.update(at as int, view));
        },
        None => {
            let row = AccountRecord {
                account_key: account_key.to_owned(),
                display_name,
                email,
                plan_type,
                auth_identity: string_value(snapshot.get("codexPath")),
                first_seen_at: seen_at,
                last_seen_at: seen_at,
            };
            let ghost view = row@;
            accounts.push(row);
            assert(account_views(accounts@) =~= before.push(view));
        },
    }
}

pub fn ensure_account(accounts: &mut Vec<AccountRecord>, account_key: &str, seen_at: i64)
    ensures
        account_views(final(accounts)@) == accounts_seen(
            account_views(old(accounts)@),
            account_key@,
            seen_at as int,
        ),
{
    let ghost before = account_views(accounts@);
    match find_account(accounts, account_key) {
        Some(at) => {
            let row = AccountRecord {
                account_key: accounts[at].account_key.clone(),
                display_name: copy_text(&accounts[at].display_name),
                email: copy_text(&accounts[at].email),
                plan_type: copy_text(&accounts[at].plan_type),
                auth_identity: copy_text(&accounts[at].auth_identity),
                first_seen_at: accounts[at].first_seen_at,
                last_seen_at: accounts[at].last_seen_at.max(seen_at),
            };
            let ghost view = row@;
            accounts.set(at, row);
            assert(account_views(accounts@) =~= before.update(at as int, view));
        },
        None => {
            let row = AccountRecord {
                account_key: account_key.to_owned(),
                display_name: None,
                email: None,
                plan_type: None,
                auth_identity: None,
                first_seen_at: seen_at,
                last_seen_at: seen_at,
            };
            let ghost view = row@;
            accounts.push(row);
            assert(account_views(accounts@) =~= before.push(view));
        },
    }
}

/// The account is the one that was seen last among those that are known.
pub open spec fn is_current(accounts: Seq<AccountView>, account_key: Seq<char>) -> bool {
    exists|i: int|
        {
            &&& 0 <= i < accounts.len()
            &&& (#[trigger] accounts[i]).account_key == account_key
            &&& !unresolved_key(account_key)
            &&& forall|k: int|
                0 <= k < accounts.len() && !unresolved_key((#[trigger] accounts[k]).account_key)
                    ==> accounts[k].last_seen_at <= accounts[i].last_seen_at
        }
}

/// The account that was seen last. One that no evidence has identified is never current.
pub fn current_account_key(accounts: &Vec<AccountRecord>) -> (r: Option<String>)
    ensures
        match r {
            Some(key) => is_current(account_views(accounts@), key@),
            None => forall|k: int|
                0 <= k < accounts.len() ==> unresolved_key((#[trigger] accounts@[k]).account_key@),
        },
{
    let ghost rows = account_views(accounts@);
    let mut best: Option<usize> = None;
    let mut i: usize = 0;
    while i < accounts.len()
        invariant
            i <= accounts.len(),
            rows == account_views(accounts@),
            match best {
                Some(at) => {
                    &&& at < i
                    &&& !unresolved_key(rows[at as int].account_key)
                    &&& forall|k: int|
                        0 <= k < i && !unresolved_key((#[trigger] rows[k]).account_key)
                            ==> rows[k].last_seen_at <= rows[at as int].last_seen_at
                },
                None => forall|k: int|
                    0 <= k < i ==> unresolved_key((#[trigger] accounts@[k]).account_key@),
            },
        decreases accounts.len() - i,
    {
        if !is_unresolved_account_key(accounts[i].account_key.as_str()) {
            match best {
                Some(at) => if accounts[i].last_seen_at > accounts[at].last_seen_at {
                    best = Some(i);
                },
                None => {
                    proof {
                        assert forall|k: int|
                            0 <= k < i && !unresolved_key(
                                (#[trigger] rows[k]).account_key,
                            ) implies rows[k].last_seen_at <= rows[i as int].last_seen_at by {
                            assert(unresolved_key(accounts@[k].account_key@));
                        }
                    }
                    best = Some(i);
                },
            }
        }
        i += 1;
    }
    match best {
        Some(at) => {
            assert(rows[at as int].account_key == accounts@[at as int].account_key@);
            Some(accounts[at].account_key.clone())
        },
        None => None,
    }
}

/// The key under which a snapshot is recorded: a snapshot that names no account at all is
/// taken to be of the current one.
pub fn recording_key(snapshot: &Json, current: Option<String>) -> (r: String)
    ensures
        r@ == if is_prefix("local:"@, account_key_of(snapshot@)) && current is Some {
            current->0@
        } else {
            account_key_of(snapshot@)
        },
{
    let key = snapshot_account_key(snapshot);
    if starts_with(key.as_str(), "local:") {
        match current {
            Some(current) => current,
            None => key,
        }
    } else {
        key
    }
}

/// The key of the account that a snapshot itself names: one that only tells the installation
/// names nobody.
pub open spec fn explicit_key_of(snapshot: JsonView) -> Option<Seq<char>> {
    if is_prefix("local:"@, account_key_of(snapshot)) {
        None
    } else {
        Some(account_key_of(snapshot))
    }
}

/// The key of the account that a snapshot itself names.
pub fn explicit_snapshot_account_key(snapshot: &Json) -> (r: Option<String>)
    ensures
        text_opt(r) == explicit_key_of(snapshot@),
{
    let key = snapshot_account_key(snapshot);
    if starts_with(key.as_str(), "local:") {
        None
    } else {
        Some(key)
    }
}

// ---------------------------------------------------------------------------
// Official daily usage
// ---------------------------------------------------------------------------

#[derive(Debug)]
pub struct DailyUsageRow {
    pub account_key: String,
    pub date: String,
    pub official_tokens: i64,
    pub fetched_at: i64,
}

/// The mathematical value of a [`DailyUsageRow`].
pub struct DailyView {
    pub account_key: Seq<char>,
    pub date: Seq<char>,
    pub official_tokens: int,
    pub fetched_at: int,
}

impl View for DailyUsageRow {
    type V = DailyView;

    open spec fn view(&self) -> DailyView {
        DailyView {
            account_key: self.account_key@,
            date: self.date@,
            official_tokens: self.official_tokens as int,
            fetched_at: self.fetched_at as int,
        }
    }
}

pub open spec fn daily_views(rows: Seq<DailyUsageRow>) -> Seq<DailyView> {
    Seq::new(rows.len(), |i: int| rows[i]@)
}

/// A day of the snapshot: its date and its tokens, where it has both.
pub open spec fn day_of(bucket: JsonView) -> Option<(Seq<char>, int)> {
    match (text_of(field(bucket, "startDate"@)), integer_of(field(bucket, "tokens"@))) {
        (Some(date), Some(tokens)) => Some((date, crate::arith::max_int(tokens, 0))),
        _ => None,
    }
}

pub open spec fn snapshot_days(snapshot: JsonView) -> Seq<JsonView> {
    match items_of(field_of(field(snapshot, "usage"@), "dailyUsageBuckets"@)) {
        Some(days) => days,
        None => Seq::empty(),
    }
}

/// The count is the account's, of the date.
pub open spec fn is_day_of(account_key: Seq<char>, date: Seq<char>) -> spec_fn(DailyView) -> bool {
    |known: DailyView| known.account_key == account_key && known.date == date
}

/// The daily usage after one day is recorded in the place of what was known of it.
pub open spec fn daily_with(rows: Seq<DailyView>, row: DailyView) -> Seq<DailyView> {
    match first_where(rows, is_day_of(row.account_key, row.date)) {
        Some(at) => rows.update(at, row),
        None => rows.push(row),
    }
}

/// The daily usage after the days of a snapshot.
pub open spec fn daily_after(
    rows: Seq<DailyView>,
    days: Seq<JsonView>,
    account_key: Seq<char>,
    fetched_at: int,
) -> Seq<DailyView>
    decreases days.len(),
{
    if days.len() == 0 {
        rows
    } else {
        let before = daily_after(rows, days.drop_last(), account_key, fetched_at);
        match day_of(days.last()) {
            Some((date, tokens)) => daily_with(
                before,
                DailyView { account_key, date, official_tokens: tokens, fetched_at },
            ),
            None => before,
        }
    }
}

fn put_day(rows: &mut Vec<DailyUsageRow>, row: DailyUsageRow)
    ensures
        daily_views(final(rows)@) == daily_with(daily_views(old(rows)@), row@),
{
    let ghost before = daily_views(rows@);
    let ghost view = row@;
    let ghost pick = is_day_of(view.account_key, view.date);
    let mut i: usize = 0;
    while i < rows.len()
        invariant
            i <= rows.len(),
            rows@ == old(rows)@,
            before == daily_views(rows@),
            view == row@,
            pick == is_day_of(view.account_key, view.date),
            forall|k: int| 0 <= k < i ==> !pick(#[trigger] before[k]),
        decreases rows.len() - i,
    {
        if same_text(rows[i].date.as_str(), row.date.as_str()) && same_text(
            rows[i].account_key.as_str(),
            row.account_key.as_str(),
        ) {
            proof {
                lemma_first_where_at(before, pick, i as int);
            }
            rows.set(i, row);
            assert(daily_views(rows@) =~= before.update(i as int, view));
            return;
        }
        i += 1;
    }
    proof {
        lemma_first_where_none(before, pick);
    }
    rows.push(row);
    assert(daily_views(rows@) =~= before.push(view));
}

/// Records the daily usage that a snapshot states.
pub fn record_daily_usage(
    rows: &mut Vec<DailyUsageRow>,
    snapshot: &Json,
    account_key: &str,
    fetched_at: i64,
)
    ensures
        daily_views(final(rows)@) == daily_after(
            daily_views(old(rows)@),
            snapshot_days(snapshot@),
            account_key@,
            fetched_at as int,
        ),
{
    let days = match get_of(snapshot.get("usage"), "dailyUsageBuckets") {
        Some(days) => days,
        None => {
            return;
        },
    };
    let days = match days.items() {
        Some(days) => days,
        None => {
            return;
        },
    };
    let ghost all = views(days@);
    let mut i: usize = 0;
    while i < days.len()
        invariant
            i <= days.len(),
            all == views(days@),
            daily_views(rows@) == daily_after(
                daily_views(old(rows)@),
                all.take(i as int),
                account_key@,
                fetched_at as int,
            ),
        decreases days.len() - i,
    {
        proof {
            assert(all.take(i + 1).drop_last() =~= all.take(i as int));
            assert(all.take(i + 1).last() == days@[i as int]@);
        }
        match (string_value(days[i].get("startDate")), number_i64(days[i].get("tokens"))) {
            (Some(date), Some(tokens)) => {
                put_day(
                    rows,
                    DailyUsageRow {
                        account_key: account_key.to_owned(),
                        date,
                        official_tokens: tokens.max(0),
                        fetched_at,
                    },
                );
            },
            _ => {},
        }
        i += 1;
    }
    assert(all.take(all.len() as int) =~= all);
}

// ---------------------------------------------------------------------------
// Rate limit samples
// ---------------------------------------------------------------------------

/// The two windows of a rate limit.
#[derive(Clone, Copy, Debug, PartialEq, Eq, Structural)]
pub enum WindowName {
    Primary,
    Secondary,
}

impl WindowName {
    pub open spec fn name(self) -> Seq<char> {
        match self {
            WindowName::Primary => "primary"@,
            WindowName::Secondary => "secondary"@,
        }
    }

    pub fn as_str(self) -> (r: &'static str)
        ensures
            r@ == self.name(),
    {
        match self {
            WindowName::Primary => "primary",
            WindowName::Secondary => "secondary",
        }
    }
}

/// What a snapshot says of one window of one limit.
#[derive(Debug)]
pub struct FoundSample {
    pub limit_id: String,
    pub window: WindowName,
    pub window_duration_mins: i64,
    pub used_percent: Percent,
    pub resets_at: Option<i64>,
}

/// The mathematical value of a [`FoundSample`].
pub struct FoundView {
    pub limit_id: Seq<char>,
    pub window: WindowName,
    pub window_duration_mins: i64,
    pub used_percent: Percent,
    pub resets_at: Option<i64>,
}

impl View for FoundSample {
    type V = FoundView;

    open spec fn view(&self) -> FoundView {
        FoundView {
            limit_id: self.limit_id@,
            window: self.window,
            window_duration_mins: self.window_duration_mins,
            used_percent: self.used_percent,
            resets_at: self.resets_at,
        }
    }
}

pub open spec fn found_views(found: Seq<FoundSample>) -> Seq<FoundView> {
    Seq::new(found.len(), |i: int| found[i]@)
}

/// The part of a snapshot that speaks of rate limits.
pub open spec fn limits_part(snapshot: JsonView) -> JsonView {
    match field(snapshot, "rateLimits"@) {
        Some(part) => part,
        None => snapshot,
    }
}

/// The limits with their identifiers: those listed by identifier; or else the one under
/// `rateLimits`; or else the part itself, where it names its limit.
pub open spec fn limit_buckets(snapshot: JsonView) -> Seq<(Seq<char>, JsonView)> {
    let part = limits_part(snapshot);
    let listed = match entries_of(field(part, "rateLimitsByLimitId"@)) {
        Some(entries) => entries,
        None => Seq::empty(),
    };
    if listed.len() > 0 {
        listed
    } else {
        match (field(part, "rateLimits"@), text_of(field_of(field(part, "rateLimits"@), "limitId"@))) {
            (Some(bucket), Some(limit_id)) => seq![(limit_id, bucket)],
            _ => match text_of(field(part, "limitId"@)) {
                Some(limit_id) => seq![(limit_id, part)],
                None => Seq::empty(),
            },
        }
    }
}

/// What a limit says of a window, where it says how long it is and how much of it is used.
pub open spec fn window_found(limit_id: Seq<char>, bucket: JsonView, window: WindowName) -> Option<
    FoundView,
> {
    match field(bucket, window.name()) {
        Some(value) => match (
            integer_of(either_field(value, "windowDurationMins"@, "window_minutes"@)),
            percent_code_of(field(value, "usedPercent"@)),
        ) {
            (Some(duration), Some(used)) => Some(
                FoundView {
                    limit_id,
                    window,
                    window_duration_mins: duration as i64,
                    used_percent: Percent { code: used as i64 },
                    resets_at: match integer_of(field(value, "resetsAt"@)) {
                        Some(at) => Some(at as i64),
                        None => None,
                    },
                },
            ),
            _ => None,
        },
        None => None,
    }
}

pub open spec fn push_found(found: Seq<FoundView>, next: Option<FoundView>) -> Seq<FoundView> {
    match next {
        Some(next) => found.push(next),
        None => found,
    }
}

/// What the limits say of their windows, limit by limit, the primary window first.
pub open spec fn found_in(buckets: Seq<(Seq<char>, JsonView)>) -> Seq<FoundView>
    decreases buckets.len(),
{
    if buckets.len() == 0 {
        Seq::empty()
    } else {
        let (limit_id, bucket) = buckets.last();
        push_found(
            push_found(
                found_in(buckets.drop_last()),
                window_found(limit_id, bucket, WindowName::Primary),
            ),
            window_found(limit_id, bucket, WindowName::Secondary),
        )
    }
}

fn read_window(limit_id: &str, bucket: &Json, window: WindowName, found: &mut Vec<FoundSample>)
    ensures
        found_views(final(found)@) == push_found(
            found_views(old(found)@),
            window_found(limit_id@, bucket@, window),
        ),
{
    let ghost before = found_views(found@);
    match bucket.get(window.as_str()) {
        Some(value) => {
            match (
                number_i64(value.get_either("windowDurationMins", "window_minutes")),
                number_percent(value.get("usedPercent")),
            ) {
                (Some(duration), Some(used_percent)) => {
                    let sample = FoundSample {
                        limit_id: limit_id.to_owned(),
                        window,
                        window_duration_mins: duration,
                        used_percent,
                        resets_at: number_i64(value.get("resetsAt")),
                    };
                    let ghost view = sample@;
                    found.push(sample);
                    assert(found_views(found@) =~= before.push(view));
                },
                _ => {},
            }
        },
        None => {},
    }
}

fn read_bucket(limit_id: &str, bucket: &Json, found: &mut Vec<FoundSample>)
    ensures
        found_views(final(found)@) == push_found(
            push_found(
                found_views(old(found)@),
                window_found(limit_id@, bucket@, WindowName::Primary),
            ),
            window_found(limit_id@, bucket@, WindowName::Secondary),
        ),
{
    read_window(limit_id, bucket, WindowName::Primary, found);
    read_window(limit_id, bucket, WindowName::Secondary, found);
}

/// What a snapshot says of the windows of its rate limits.
pub fn found_samples(snapshot: &Json) -> (r: Vec<FoundSample>)
    ensures
        found_views(r@) == found_in(limit_buckets(snapshot@)),
{
    let part = match snapshot.get("rateLimits") {
        Some(part) => part,
        None => snapshot,
    };
    let mut found: Vec<FoundSample> = Vec::new();
    assert(found_views(found@) =~= Seq::empty());
    if let Some(listed) = part.get("rateLimitsByLimitId") {
        if let Some(entries) = listed.entries() {
            if entries.len() > 0 {
                let ghost all = entry_views(entries@);
                let mut i: usize = 0;
                while i < entries.len()
                    invariant
                        i <= entries.len(),
                        all == entry_views(entries@),
                        found_views(found@) == found_in(all.take(i as int)),
                    decreases entries.len() - i,
                {
                    proof {
                        assert(all.take(i + 1).drop_last() =~= all.take(i as int));
                        assert(all.take(i + 1).last() == all[i as int]);
                    }
                    read_bucket(entries[i].0.as_str(), &entries[i].1, &mut found);
                    i += 1;
                }
                assert(all.take(all.len() as int) =~= all);
                return found;
            }
        }
    }
    proof {
        reveal_with_fuel(found_in, 2);
    }
    if let Some(bucket) = part.get("rateLimits") {
        if let Some(limit_id) = as_text(bucket.get("limitId")) {
            read_bucket(limit_id, bucket, &mut found);
            assert(seq![(limit_id@, bucket@)].drop_last() =~= Seq::empty());
            return found;
        }
    }
    if let Some(limit_id) = as_text(part.get("limitId")) {
        read_bucket(limit_id, part, &mut found);
        assert(seq![(limit_id@, part@)].drop_last() =~= Seq::empty());
    }
    found
}

/// The mathematical value of a [`RateLimitRow`].
pub struct RateRowView {
    pub account_key: Seq<char>,
    pub limit_id: Seq<char>,
    pub window: Seq<char>,
    pub sample: RateSample,
    pub generation: Option<i64>,
}

pub open spec fn row_view(row: RateLimitRow) -> RateRowView {
    RateRowView {
        account_key: row.account_key@,
        limit_id: row.limit_id@,
        window: row.window@,
        sample: row.sample,
        generation: row.generation,
    }
}

pub open spec fn row_views(rows: Seq<RateLimitRow>) -> Seq<RateRowView> {
    Seq::new(rows.len(), |i: int| row_view(rows[i]))
}

/// The row is of the same window with the same share and the same reset, and was taken no
/// more than half a minute before.
pub open spec fn repeats(
    row: RateRowView,
    found: FoundView,
    account_key: Seq<char>,
    sampled_at: int,
) -> bool {
    &&& row.account_key == account_key
    &&& row.limit_id == found.limit_id
    &&& row.window == found.window.name()
    &&& row.sample.sampled_at >= sampled_at - 30
    &&& row.sample.used_percent == found.used_percent
    &&& row.sample.resets_at == found.resets_at
}

pub open spec fn seen_already(
    rows: Seq<RateRowView>,
    found: FoundView,
    account_key: Seq<char>,
    sampled_at: int,
) -> bool {
    exists|i: int|
        0 <= i < rows.len() && repeats(#[trigger] rows[i], found, account_key, sampled_at)
}

/// The generation that a snapshot names.
pub open spec fn generation_of(snapshot: JsonView) -> Option<i64> {
    match integer_of(field(snapshot, "generation"@)) {
        Some(generation) => Some(generation as i64),
        None => None,
    }
}

/// The row that records what was found.
pub open spec fn recorded_row(
    found: FoundView,
    account_key: Seq<char>,
    sampled_at: i64,
    generation: Option<i64>,
    id: int,
) -> RateRowView {
    RateRowView {
        account_key,
        limit_id: found.limit_id,
        window: found.window.name(),
        sample: RateSample {
            id: id as i64,
            sampled_at,
            window_duration_mins: found.window_duration_mins,
            used_percent: found.used_percent,
            resets_at: found.resets_at,
        },
        generation,
    }
}

/// The rows with what was found, one after another, but for what had been seen already. The
/// identifiers go on from `next_id`.
pub open spec fn rows_after(
    rows: Seq<RateRowView>,
    found: Seq<FoundView>,
    account_key: Seq<char>,
    sampled_at: i64,
    generation: Option<i64>,
    next_id: int,
) -> Seq<RateRowView>
    decreases found.len(),
{
    if found.len() == 0 {
        rows
    } else {
        let before = rows_after(
            rows,
            found.drop_last(),
            account_key,
            sampled_at,
            generation,
            next_id,
        );
        if seen_already(before, found.last(), account_key, sampled_at as int) {
            before
        } else {
            before.push(
                recorded_row(
                    found.last(),
                    account_key,
                    sampled_at,
                    generation,
                    next_id + before.len() - rows.len(),
                ),
            )
        }
    }
}

fn already_seen(
    rows: &Vec<RateLimitRow>,
    found: &FoundSample,
    account_key: &str,
    sampled_at: i64,
) -> (r: bool)
    ensures
        r == seen_already(row_views(rows@), found@, account_key@, sampled_at as int),
{
    let ghost all = row_views(rows@);
    let mut i: usize = 0;
    while i < rows.len()
        invariant
            i <= rows.len(),
            all == row_views(rows@),
            forall|k: int|
                0 <= k < i ==> !repeats(#[trigger] all[k], found@, account_key@, sampled_at as int),
        decreases rows.len() - i,
    {
        let same_reset = match (rows[i].sample.resets_at, found.resets_at) {
            (Some(a), Some(b)) => a == b,
            (None, None) => true,
            _ => false,
        };
        if same_reset && rows[i].sample.used_percent.code == found.used_percent.code
            && rows[i].sample.sampled_at as i128 >= sampled_at as i128 - 30 && same_text(
            rows[i].account_key.as_str(),
            account_key,
        ) && same_text(rows[i].limit_id.as_str(), found.limit_id.as_str()) && same_text(
            rows[i].window.as_str(),
            found.window.as_str(),
        ) {
            assert(repeats(all[i as int], found@, account_key@, sampled_at as int));
            return true;
        }
        i += 1;
    }
    false
}

/// Records what a snapshot says of its rate limits. A notification that only repeats what
/// was seen within the last half minute is dropped.
pub fn record_rate_limit_samples(
    rows: &mut Vec<RateLimitRow>,
    account_key: &str,
    sampled_at: i64,
    snapshot: &Json,
    next_id: i64,
)
    requires
        next_id + found_in(limit_buckets(snapshot@)).len() <= i64::MAX,
    ensures
        row_views(final(rows)@) == rows_after(
            row_views(old(rows)@),
            found_in(limit_buckets(snapshot@)),
            account_key@,
            sampled_at,
            generation_of(snapshot@),
            next_id as int,
        ),
{
    let found = found_samples(snapshot);
    let generation = number_i64(snapshot.get("generation"));
    let ghost all = found_views(found@);
    let ghost before = row_views(rows@);
    let mut id: i64 = next_id;
    let mut i: usize = 0;
    while i < found.len()
        invariant
            i <= found.len(),
            all == found_views(found@),
            next_id + found.len() <= i64::MAX,
            before.len() <= rows@.len(),
            id == next_id + rows@.len() - before.len(),
            id <= next_id + i,
            row_views(rows@) == rows_after(
                before,
                all.take(i as int),
                account_key@,
                sampled_at,
                generation,
                next_id as int,
            ),
        decreases found.len() - i,
    {
        proof {
            assert(all.take(i + 1).drop_last() =~= all.take(i as int));
            assert(all.take(i + 1).last() == found@[i as int]@);
        }
        let ghost middle = row_views(rows@);
        if !already_seen(rows, &found[i], account_key, sampled_at) {
            let row = RateLimitRow {
                account_key: account_key.to_owned(),
                limit_id: found[i].limit_id.clone(),
                window: found[i].window.as_str().to_owned(),
                sample: RateSample {
                    id,
                    sampled_at,
                    window_duration_mins: found[i].window_duration_mins,
                    used_percent: found[i].used_percent,
                    resets_at: found[i].resets_at,
                },
                generation,
            };
            let ghost view = row_view(row);
            rows.push(row);
            assert(row_views(rows@) =~= middle.push(view));
            id = id + 1;
        }
        i += 1;
    }
    assert(all.take(all.len() as int) =~= all);
}

/// What was recorded is seen already: the same window with the same share and reset adds
/// nothing within half a minute.
pub proof fn lemma_repeated_notification_is_dropped(
    rows: Seq<RateRowView>,
    found: FoundView,
    account_key: Seq<char>,
    first_at: i64,
    later_at: int,
    generation: Option<i64>,
    id: int,
    at: int,
)
    requires
        0 <= at < rows.len(),
        rows[at] == recorded_row(found, account_key, first_at, generation, id),
        later_at <= first_at + 30,
    ensures
        seen_already(rows, found, account_key, later_at),
{
    assert(repeats(rows[at], found, account_key, later_at));
}

pub fn confidence_string(confidence: &Confidence) -> (r: &'static str)
    ensures
        r@ == confidence_name(*confidence),
{
    crate::quota::confidence_string(confidence)
}

/// `std::time::SystemTime::now`, as the seconds since the epoch; zero where the clock stands
/// before it. Nothing is said of which second that is.
#[verifier::external_body]
pub fn now_seconds() -> (r: i64) {
    match std::time::SystemTime::now().duration_since(std::time::UNIX_EPOCH) {
        Ok(duration) => duration.as_secs() as i64,
        Err(_) => 0,
    }
}

/// The key under which a snapshot goes into the books.
pub open spec fn recorded_under(
    accounts: Seq<AccountView>,
    snapshot: JsonView,
    key: Seq<char>,
) -> bool {
    if is_prefix("local:"@, account_key_of(snapshot)) {
        ||| is_current(accounts, key)
        ||| key == account_key_of(snapshot) && forall|k: int|
            0 <= k < accounts.len() ==> unresolved_key((#[trigger] accounts[k]).account_key)
    } else {
        key == account_key_of(snapshot)
    }
}

/// Takes a snapshot of the server into the books: the account, its days and its limits. Gives
/// the account's key.
pub fn record_official_snapshot(
    accounts: &mut Vec<AccountRecord>,
    days: &mut Vec<DailyUsageRow>,
    limits: &mut Vec<RateLimitRow>,
    snapshot: &Json,
    next_id: i64,
    now: i64,
) -> (key: String)
    requires
        next_id + found_in(limit_buckets(snapshot@)).len() <= i64::MAX,
    ensures
        recorded_under(account_views(old(accounts)@), snapshot@, key@),
        account_views(final(accounts)@) == accounts_with(
            account_views(old(accounts)@),
            described(snapshot@, key@, fetched_at(snapshot@, now)),
        ),
        daily_views(final(days)@) == daily_after(
            daily_views(old(days)@),
            snapshot_days(snapshot@),
            key@,
            fetched_at(snapshot@, now),
        ),
        row_views(final(limits)@) == rows_after(
            row_views(old(limits)@),
            found_in(limit_buckets(snapshot@)),
            key@,
            fetched_at(snapshot@, now) as i64,
            generation_of(snapshot@),
            next_id as int,
        ),
{
    let current = current_account_key(accounts);
    let ghost rows = account_views(accounts@);
    proof {
        if current is None {
            assert forall|k: int| 0 <= k < rows.len() implies unresolved_key(
                (#[trigger] rows[k]).account_key,
            ) by {
                assert(unresolved_key(accounts@[k].account_key@));
            }
        }
    }
    let key = recording_key(snapshot, current);
    let at: i64 = timestamp(snapshot.get("fetchedAt"), now);
    record_account_snapshot(accounts, snapshot, key.as_str(), at);
    record_daily_usage(days, snapshot, key.as_str(), at);
    record_rate_limit_samples(limits, key.as_str(), at, snapshot, next_id);
    key
}

/// Takes a notification about the limits into the books, for the account that is current;
/// while there is none, nothing is recorded.
pub fn record_rate_limit_update(
    accounts: &Vec<AccountRecord>,
    limits: &mut Vec<RateLimitRow>,
    payload: &Json,
    next_id: i64,
    now: i64,
) -> (key: Option<String>)
    requires
        next_id + found_in(limit_buckets(payload@)).len() <= i64::MAX,
    ensures
        match key {
            Some(key) => {
                &&& is_current(account_views(accounts@), key@)
                &&& row_views(final(limits)@) == rows_after(
                    row_views(old(limits)@),
                    found_in(limit_buckets(payload@)),
                    key@,
                    now,
                    generation_of(payload@),
                    next_id as int,
                )
            },
            None => {
                &&& forall|k: int|
                    0 <= k < accounts.len() ==> unresolved_key(
                        (#[trigger] accounts@[k]).account_key@,
                    )
                &&& final(limits)@ == old(limits)@
            },
        },
{
    match current_account_key(accounts) {
        Some(key) => {
            record_rate_limit_samples(limits, key.as_str(), now, payload, next_id);
            Some(key)
        },
        None => None,
    }
}

impl AccountRow for DailyUsageRow {
    open spec fn account(&self) -> Seq<char> {
        self.account_key@
    }

    fn account_is(&self, key: &str) -> (r: bool) {
        same_text(self.account_key.as_str(), key)
    }
}

// ---------------------------------------------------------------------------
// Laws
// ---------------------------------------------------------------------------

/// An account that a snapshot identifies has the key of its identifier, whatever else the
/// snapshot says.
pub proof fn lemma_identifier_is_the_key(snapshot: JsonView, id: Seq<char>)
    requires
        ({
            let account = field_of(field(snapshot, "account"@), "account"@);
            ||| text_of(field_of(account, "id"@)) == Some(id)
            ||| field_of(account, "id"@) is None && text_of(field_of(account, "accountId"@))
                == Some(id)
        }),
        trimmed(id).len() > 0,
    ensures
        account_key_of(snapshot) == "account:"@ + trimmed(id),
        explicit_key_of(snapshot) == Some("account:"@ + trimmed(id)),
{
    reveal_strlit("account:");
    reveal_strlit("local:");
    let key = account_key_of(snapshot);
    assert(key =~= "account:"@ + trimmed(id));
    assert(key[0] == 'a');
    if is_prefix("local:"@, key) {
        assert(key.subrange(0, "local:"@.len() as int)[0] == 'l');
    }
}

/// What a snapshot says of the account, each thing under its own key.
pub proof fn lemma_account_is_described(
    snapshot: JsonView,
    account_key: Seq<char>,
    seen_at: int,
)
    ensures
        ({
            let account = field_of(field(snapshot, "account"@), "account"@);
            let told = described(snapshot, account_key, seen_at);
            let name = field_of(account, "name"@);
            &&& told.account_key == account_key
            &&& name is Some ==> told.display_name == text_of(name)
            &&& name is None ==> told.display_name == text_of(field_of(account, "displayName"@))
            &&& told.email == text_of(field_of(account, "email"@))
            &&& told.plan_type == text_of(field_of(account, "planType"@))
            &&& told.auth_identity == text_of(field(snapshot, "codexPath"@))
            &&& told.first_seen_at == seen_at
            &&& told.last_seen_at == seen_at
        }),
{
}

/// What a snapshot says of a known account takes the place of what was known, and what it
/// does not say stays, as does the time at which the account was first seen. Other accounts
/// stay, and an account that was not known is added as it is described.
pub proof fn lemma_known_account_is_updated(accounts: Seq<AccountView>, seen: AccountView)
    ensures
        ({
            let after = accounts_with(accounts, seen);
            &&& forall|i: int|
                0 <= i < accounts.len() && (#[trigger] accounts[i]).account_key
                    != seen.account_key ==> after[i] == accounts[i]
            &&& (exists|i: int|
                0 <= i < accounts.len() && (#[trigger] accounts[i]).account_key
                    == seen.account_key) ==> after.len() == accounts.len() && exists|i: int|
                {
                    &&& 0 <= i < after.len()
                    &&& (#[trigger] after[i]).account_key == seen.account_key
                    &&& after[i].last_seen_at == seen.last_seen_at
                    &&& after[i].first_seen_at == accounts[i].first_seen_at
                    &&& after[i].auth_identity == accounts[i].auth_identity
                    &&& seen.display_name is Some ==> after[i].display_name == seen.display_name
                    &&& seen.display_name is None ==> after[i].display_name
                        == accounts[i].display_name
                    &&& seen.email is Some ==> after[i].email == seen.email
                    &&& seen.email is None ==> after[i].email == accounts[i].email
                    &&& seen.plan_type is Some ==> after[i].plan_type == seen.plan_type
                    &&& seen.plan_type is None ==> after[i].plan_type == accounts[i].plan_type
                }
            &&& (forall|i: int|
                0 <= i < accounts.len() ==> (#[trigger] accounts[i]).account_key
                    != seen.account_key) ==> after == accounts.push(seen)
        }),
{
    let pick = is_account(seen.account_key);
    crate::table::lemma_first_where(accounts, pick);
    let after = accounts_with(accounts, seen);
    match first_where(accounts, pick) {
        Some(at) => {
            assert(pick(accounts[at]));
            assert(after[at].account_key == seen.account_key);
        },
        None => {
            assert forall|i: int| 0 <= i < accounts.len() implies (
            #[trigger] accounts[i]).account_key != seen.account_key by {
                assert(!pick(accounts[i]));
            }
        },
    }
}

/// An account that was seen is listed from then on, last seen no earlier than that; what else
/// is known of it stays, and so do the other accounts.
pub proof fn lemma_seen_account_is_listed(
    accounts: Seq<AccountView>,
    account_key: Seq<char>,
    seen_at: int,
)
    ensures
        ({
            let after = accounts_seen(accounts, account_key, seen_at);
            &&& exists|i: int|
                {
                    &&& 0 <= i < after.len()
                    &&& (#[trigger] after[i]).account_key == account_key
                    &&& after[i].last_seen_at >= seen_at
                    &&& i < accounts.len() ==> {
                        &&& after[i].last_seen_at >= accounts[i].last_seen_at
                        &&& after[i].last_seen_at == seen_at || after[i].last_seen_at
                            == accounts[i].last_seen_at
                        &&& after[i].first_seen_at == accounts[i].first_seen_at
                        &&& after[i].display_name == accounts[i].display_name
                        &&& after[i].email == accounts[i].email
                        &&& after[i].plan_type == accounts[i].plan_type
                    }
                    &&& i == accounts.len() ==> after[i].first_seen_at == seen_at
                        && after[i].last_seen_at == seen_at
                }
            &&& forall|i: int|
                0 <= i < accounts.len() && (#[trigger] accounts[i]).account_key != account_key
                    ==> after[i] == accounts[i]
            &&& forall|i: int|
                0 <= i < accounts.len() ==> (#[trigger] after[i]).account_key
                    == accounts[i].account_key && after[i].last_seen_at >= accounts[i].last_seen_at
            &&& accounts.len() <= after.len() <= accounts.len() + 1
        }),
{
    let pick = is_account(account_key);
    crate::table::lemma_first_where(accounts, pick);
    let after = accounts_seen(accounts, account_key, seen_at);
    match first_where(accounts, pick) {
        Some(at) => {
            assert(pick(accounts[at]));
            assert(after[at].account_key == account_key);
        },
        None => {
            assert(after[accounts.len() as int].account_key == account_key);
        },
    }
}

/// The day of a snapshot says its date under `startDate` and its tokens under `tokens`, not
/// below zero; without either it says nothing.
pub proof fn lemma_day_is_read_by_name(bucket: JsonView)
    ensures
        day_of(bucket) is Some <==> text_of(field(bucket, "startDate"@)) is Some && integer_of(
            field(bucket, "tokens"@),
        ) is Some,
        day_of(bucket) matches Some((date, tokens)) ==> {
            &&& text_of(field(bucket, "startDate"@)) == Some(date)
            &&& integer_of(field(bucket, "tokens"@))->0 >= 0 ==> integer_of(
                field(bucket, "tokens"@),
            ) == Some(tokens)
            &&& integer_of(field(bucket, "tokens"@))->0 < 0 ==> tokens == 0
        },
{
}

/// The row is what the last of the days says of its date.
pub open spec fn is_told(
    row: DailyView,
    days: Seq<JsonView>,
    account_key: Seq<char>,
    fetched_at: int,
) -> bool {
    &&& row.account_key == account_key
    &&& row.fetched_at == fetched_at
    &&& exists|d: int|
        {
            &&& 0 <= d < days.len()
            &&& day_of(#[trigger] days[d]) == Some((row.date, row.official_tokens))
        }
}

/// Recording the days of a snapshot: the last day that it states is there with its tokens,
/// every row is one that was there or one that the snapshot states, and rows of other accounts
/// and of dates that it does not state stay as they were.
pub proof fn lemma_days_are_recorded(
    rows: Seq<DailyView>,
    days: Seq<JsonView>,
    account_key: Seq<char>,
    fetched_at: int,
)
    ensures
        ({
            let after = daily_after(rows, days, account_key, fetched_at);
            &&& rows.len() <= after.len()
            &&& forall|i: int|
                0 <= i < after.len() ==> (i < rows.len() && after[i] == rows[i]) || is_told(
                    #[trigger] after[i],
                    days,
                    account_key,
                    fetched_at,
                )
            &&& forall|i: int|
                0 <= i < rows.len() && ((#[trigger] rows[i]).account_key != account_key || (
                forall|d: int|
                    0 <= d < days.len() ==> match day_of(#[trigger] days[d]) {
                        Some((date, _)) => date != rows[i].date,
                        None => true,
                    })) ==> after[i] == rows[i]
            &&& days.len() > 0 ==> (day_of(days.last()) matches Some((date, tokens)) ==> exists|
                i: int,
            |
                {
                    &&& 0 <= i < after.len()
                    &&& (#[trigger] after[i]).account_key == account_key
                    &&& after[i].date == date
                    &&& after[i].official_tokens == tokens
                    &&& after[i].fetched_at == fetched_at
                })
        }),
    decreases days.len(),
{
    if days.len() > 0 {
        let front = days.drop_last();
        lemma_days_are_recorded(rows, front, account_key, fetched_at);
        let before = daily_after(rows, front, account_key, fetched_at);
        let after = daily_after(rows, days, account_key, fetched_at);
        assert forall|d: int| 0 <= d < front.len() implies days[d] == #[trigger] front[d] by {}
        let last = days[days.len() - 1];
        assert(last == days.last());
        assert forall|i: int|
            0 <= i < before.len() && is_told(
                #[trigger] before[i],
                front,
                account_key,
                fetched_at,
            ) implies is_told(before[i], days, account_key, fetched_at) by {
            let d = choose|d: int|
                0 <= d < front.len() && day_of(#[trigger] front[d]) == Some(
                    (before[i].date, before[i].official_tokens),
                );
            assert(day_of(days[d]) == Some((before[i].date, before[i].official_tokens)));
        }
        match day_of(last) {
            Some((date, tokens)) => {
                let row = DailyView { account_key, date, official_tokens: tokens, fetched_at };
                let pick = is_day_of(account_key, date);
                crate::table::lemma_first_where(before, pick);
                assert(day_of(days[days.len() - 1]) == Some((row.date, row.official_tokens)));
                assert(is_told(row, days, account_key, fetched_at));
                match first_where(before, pick) {
                    Some(at) => {
                        assert(after[at] == row);
                        assert forall|i: int|
                            0 <= i < rows.len() && ((#[trigger] rows[i]).account_key
                                != account_key || (forall|d: int|
                                0 <= d < days.len() ==> match day_of(#[trigger] days[d]) {
                                    Some((date, _)) => date != rows[i].date,
                                    None => true,
                                })) implies after[i] == rows[i] by {
                            assert(before[i] == rows[i]) by {
                                if rows[i].account_key == account_key {
                                    assert forall|d: int| 0 <= d < front.len() implies match day_of(
                                        #[trigger] front[d],
                                    ) {
                                        Some((date, _)) => date != rows[i].date,
                                        None => true,
                                    } by {
                                        assert(days[d] == front[d]);
                                    }
                                }
                            }
                            if i == at {
                                assert(pick(before[at]));
                                assert(day_of(days[days.len() - 1]) is Some);
                            }
                        }
                    },
                    None => {
                        assert(after[before.len() as int] == row);
                        assert forall|i: int|
                            0 <= i < rows.len() && ((#[trigger] rows[i]).account_key
                                != account_key || (forall|d: int|
                                0 <= d < days.len() ==> match day_of(#[trigger] days[d]) {
                                    Some((date, _)) => date != rows[i].date,
                                    None => true,
                                })) implies after[i] == rows[i] by {
                            assert(before[i] == rows[i]) by {
                                if rows[i].account_key == account_key {
                                    assert forall|d: int| 0 <= d < front.len() implies match day_of(
                                        #[trigger] front[d],
                                    ) {
                                        Some((date, _)) => date != rows[i].date,
                                        None => true,
                                    } by {
                                        assert(days[d] == front[d]);
                                    }
                                }
                            }
                        }
                    },
                }
            },
            None => {
                assert forall|i: int|
                    0 <= i < rows.len() && ((#[trigger] rows[i]).account_key != account_key || (
                    forall|d: int|
                        0 <= d < days.len() ==> match day_of(#[trigger] days[d]) {
                            Some((date, _)) => date != rows[i].date,
                            None => true,
                        })) implies after[i] == rows[i] by {
                    if rows[i].account_key == account_key {
                        assert forall|d: int| 0 <= d < front.len() implies match day_of(
                            #[trigger] front[d],
                        ) {
                            Some((date, _)) => date != rows[i].date,
                            None => true,
                        } by {
                            assert(days[d] == front[d]);
                        }
                    }
                }
            },
        }
    }
}

/// What a limit says of a window stands under the window's own name: how long it lasts, how
/// much of it is used, and when it resets. Without a length or a share it says nothing.
pub proof fn lemma_window_is_read_by_name(
    limit_id: Seq<char>,
    bucket: JsonView,
    window: WindowName,
)
    ensures
        ({
            let under = match window {
                WindowName::Primary => field(bucket, "primary"@),
                WindowName::Secondary => field(bucket, "secondary"@),
            };
            let length = match field_of(under, "windowDurationMins"@) {
                Some(value) => integer_of(Some(value)),
                None => integer_of(field_of(under, "window_minutes"@)),
            };
            let used = percent_code_of(field_of(under, "usedPercent"@));
            match window_found(limit_id, bucket, window) {
                Some(found) => {
                    &&& found.limit_id == limit_id
                    &&& found.window == window
                    &&& length == Some(found.window_duration_mins as int)
                    &&& used == Some(found.used_percent.code as int)
                    &&& found.resets_at matches Some(at) ==> integer_of(
                        field_of(under, "resetsAt"@),
                    ) == Some(at as int)
                    &&& found.resets_at is None ==> integer_of(field_of(under, "resetsAt"@)) is None
                },
                None => length is None || used is None,
            }
        }),
{
}

/// What is found in a snapshot comes from its limits, and every window that says enough is
/// found.
pub proof fn lemma_every_window_is_found(buckets: Seq<(Seq<char>, JsonView)>)
    ensures
        forall|k: int|
            0 <= k < found_in(buckets).len() ==> comes_from(#[trigger] found_in(buckets)[k], buckets),
        forall|b: int, window: WindowName|
            0 <= b < buckets.len() ==> (#[trigger] window_found(
                buckets[b].0,
                buckets[b].1,
                window,
            ) matches Some(found) ==> found_in(buckets).contains(found)),
    decreases buckets.len(),
{
    if buckets.len() > 0 {
        let front = buckets.drop_last();
        lemma_every_window_is_found(front);
        let (limit_id, bucket) = buckets.last();
        let last = buckets.len() - 1;
        assert(buckets[last] == buckets.last());
        let before = found_in(front);
        let first = window_found(limit_id, bucket, WindowName::Primary);
        let second = window_found(limit_id, bucket, WindowName::Secondary);
        let middle = push_found(before, first);
        let all = found_in(buckets);
        assert(all == push_found(middle, second));
        assert forall|b: int| 0 <= b < front.len() implies buckets[b] == #[trigger] front[b] by {}
        assert forall|k: int| 0 <= k < all.len() implies comes_from(
            #[trigger] all[k],
            buckets,
        ) by {
            if k < before.len() {
                assert(all[k] == before[k]);
                assert(comes_from(before[k], front));
                let (b, window) = choose|b: int, window: WindowName|
                    0 <= b < front.len() && #[trigger] window_found(
                        front[b].0,
                        front[b].1,
                        window,
                    ) == Some(before[k]);
                assert(window_found(buckets[b].0, buckets[b].1, window) == Some(all[k]));
            } else if k < middle.len() {
                assert(window_found(buckets[last].0, buckets[last].1, WindowName::Primary) == Some(
                    all[k],
                ));
            } else {
                assert(window_found(buckets[last].0, buckets[last].1, WindowName::Secondary)
                    == Some(all[k]));
            }
        }
        assert forall|b: int, window: WindowName| 0 <= b < buckets.len() implies (
        #[trigger] window_found(buckets[b].0, buckets[b].1, window) matches Some(found)
            ==> all.contains(found)) by {
            match window_found(buckets[b].0, buckets[b].1, window) {
                Some(found) => {
                    if b < front.len() {
                        assert(window_found(front[b].0, front[b].1, window) == Some(found));
                        assert(before.contains(found));
                        let k = choose|k: int| 0 <= k < before.len() && before[k] == found;
                        assert(all[k] == found);
                    } else {
                        match window {
                            WindowName::Primary => {
                                assert(middle[before.len() as int] == found);
                                assert(all[before.len() as int] == found);
                            },
                            WindowName::Secondary => {
                                assert(all[middle.len() as int] == found);
                            },
                        }
                    }
                },
                None => {},
            }
        }
    }
}

pub open spec fn comes_from(found: FoundView, buckets: Seq<(Seq<char>, JsonView)>) -> bool {
    exists|b: int, window: WindowName|
        0 <= b < buckets.len() && #[trigger] window_found(buckets[b].0, buckets[b].1, window)
            == Some(found)
}

/// The row says of the account what was found.
pub open spec fn says_found(row: RateRowView, found: FoundView, account_key: Seq<char>) -> bool {
    &&& row.account_key == account_key
    &&& row.limit_id == found.limit_id
    &&& found.window == WindowName::Primary ==> row.window == "primary"@
    &&& found.window == WindowName::Secondary ==> row.window == "secondary"@
    &&& row.sample.used_percent == found.used_percent
    &&& row.sample.resets_at == found.resets_at
}

/// Everything that is found is on record afterwards, no more than half a minute old: it is
/// recorded now, or a row that says the same was. What was on record stays, and what is new
/// was found, has the time and the generation of the snapshot, and goes on in number.
pub proof fn lemma_found_is_on_record(
    rows: Seq<RateRowView>,
    found: Seq<FoundView>,
    account_key: Seq<char>,
    sampled_at: i64,
    generation: Option<i64>,
    next_id: int,
)
    requires
        i64::MIN <= next_id,
        next_id + found.len() <= i64::MAX,
    ensures
        ({
            let after = rows_after(rows, found, account_key, sampled_at, generation, next_id);
            &&& rows.len() <= after.len() <= rows.len() + found.len()
            &&& forall|i: int| 0 <= i < rows.len() ==> #[trigger] after[i] == rows[i]
            &&& forall|f: int|
                0 <= f < found.len() ==> exists|i: int|
                    {
                        &&& 0 <= i < after.len()
                        &&& says_found(#[trigger] after[i], #[trigger] found[f], account_key)
                        &&& after[i].sample.sampled_at >= sampled_at - 30
                    }
            &&& forall|i: int|
                rows.len() <= i < after.len() ==> {
                    &&& (#[trigger] after[i]).sample.sampled_at == sampled_at
                    &&& after[i].generation == generation
                    &&& after[i].sample.id == next_id + i - rows.len()
                    &&& exists|f: int|
                        {
                            &&& 0 <= f < found.len()
                            &&& says_found(after[i], #[trigger] found[f], account_key)
                            &&& after[i].sample.window_duration_mins
                                == found[f].window_duration_mins
                        }
                }
        }),
    decreases found.len(),
{
    if found.len() > 0 {
        let front = found.drop_last();
        lemma_found_is_on_record(rows, front, account_key, sampled_at, generation, next_id);
        let before = rows_after(rows, front, account_key, sampled_at, generation, next_id);
        let after = rows_after(rows, found, account_key, sampled_at, generation, next_id);
        assert forall|f: int| 0 <= f < front.len() implies found[f] == #[trigger] front[f] by {}
        let last = found[found.len() - 1];
        assert(last == found.last());
        assert forall|i: int| 0 <= i < before.len() implies after[i] == #[trigger] before[i] by {}
        assert forall|f: int| 0 <= f < found.len() implies exists|i: int|
            {
                &&& 0 <= i < after.len()
                &&& says_found(#[trigger] after[i], #[trigger] found[f], account_key)
                &&& after[i].sample.sampled_at >= sampled_at - 30
            } by {
            if f < front.len() {
                let i = choose|i: int|
                    {
                        &&& 0 <= i < before.len()
                        &&& says_found(#[trigger] before[i], front[f], account_key)
                        &&& before[i].sample.sampled_at >= sampled_at - 30
                    };
                assert(says_found(after[i], found[f], account_key));
            } else if seen_already(before, last, account_key, sampled_at as int) {
                let i = choose|i: int|
                    0 <= i < before.len() && repeats(
                        #[trigger] before[i],
                        last,
                        account_key,
                        sampled_at as int,
                    );
                assert(says_found(after[i], found[f], account_key));
            } else {
                assert(says_found(after[before.len() as int], found[f], account_key));
            }
        }
        assert forall|i: int| rows.len() <= i < after.len() implies {
            &&& (#[trigger] after[i]).sample.sampled_at == sampled_at
            &&& after[i].generation == generation
            &&& after[i].sample.id == next_id + i - rows.len()
            &&& exists|f: int|
                {
                    &&& 0 <= f < found.len()
                    &&& says_found(after[i], #[trigger] found[f], account_key)
                    &&& after[i].sample.window_duration_mins == found[f].window_duration_mins
                }
        } by {
            if i < before.len() {
                assert(after[i] == before[i]);
                let f = choose|f: int|
                    {
                        &&& 0 <= f < front.len()
                        &&& says_found(before[i], #[trigger] front[f], account_key)
                        &&& before[i].sample.window_duration_mins == front[f].window_duration_mins
                    };
                assert(says_found(after[i], found[f], account_key));
            } else {
                assert(says_found(after[i], found[found.len() - 1], account_key));
            }
        }
    }
}

/// A change is never dropped: what was found with another share or another reset than every
/// row of its window has is recorded.
pub proof fn lemma_change_is_recorded(
    rows: Seq<RateRowView>,
    found: FoundView,
    account_key: Seq<char>,
    sampled_at: i64,
    generation: Option<i64>,
    next_id: int,
)
    requires
        forall|i: int|
            0 <= i < rows.len() && (#[trigger] rows[i]).account_key == account_key
                && rows[i].limit_id == found.limit_id && rows[i].window == found.window.name()
                ==> rows[i].sample.used_percent != found.used_percent
                || rows[i].sample.resets_at != found.resets_at || rows[i].sample.sampled_at
                < sampled_at - 30,
    ensures
        rows_after(rows, seq![found], account_key, sampled_at, generation, next_id).len()
            == rows.len() + 1,
{
    let one = seq![found];
    assert(one.drop_last() =~= Seq::empty());
    assert(one.last() == found);
    reveal_with_fuel(rows_after, 2);
}

/// The limits of a snapshot: those that are listed by identifier, where any is; or else the
/// one that names itself.
pub proof fn lemma_limits_are_listed(snapshot: JsonView)
    ensures
        ({
            let part = match field(snapshot, "rateLimits"@) {
                Some(part) => part,
                None => snapshot,
            };
            &&& entries_of(field(part, "rateLimitsByLimitId"@)) matches Some(entries) ==> (
            entries.len() > 0 ==> limit_buckets(snapshot) == entries)
            &&& field(part, "rateLimitsByLimitId"@) is None ==> (field(
                part,
                "rateLimits"@,
            ) matches Some(bucket) ==> (text_of(field(bucket, "limitId"@)) matches Some(limit_id)
                ==> limit_buckets(snapshot) == seq![(limit_id, bucket)]))
            &&& field(part, "rateLimitsByLimitId"@) is None && field(part, "rateLimits"@) is None
                ==> (text_of(field(part, "limitId"@)) matches Some(limit_id) ==> limit_buckets(
                snapshot,
            ) == seq![(limit_id, part)])
        }),
{
}

/// The current account is one that is identified, and no identified account was seen later.
pub proof fn lemma_current_account_was_seen_last(
    accounts: Seq<AccountView>,
    account_key: Seq<char>,
    k: int,
)
    requires
        is_current(accounts, account_key),
        0 <= k < accounts.len(),
        !unresolved_key(accounts[k].account_key),
    ensures
        !unresolved_key(account_key),
        exists|i: int|
            0 <= i < accounts.len() && (#[trigger] accounts[i]).account_key == account_key
                && accounts[i].last_seen_at >= accounts[k].last_seen_at,
{
}

/// A snapshot that says who the account is is recorded under that account. Only one that does
/// not is recorded under the account that was seen last, or its own where none is identified.
pub proof fn lemma_snapshot_is_recorded_under_its_account(
    accounts: Seq<AccountView>,
    snapshot: JsonView,
    key: Seq<char>,
)
    requires
        recorded_under(accounts, snapshot, key),
    ensures
        explicit_key_of(snapshot) matches Some(named) ==> key == named,
        explicit_key_of(snapshot) is None ==> is_current(accounts, key) || key == account_key_of(
            snapshot,
        ),
        explicit_key_of(snapshot) is None && (exists|k: int|
            0 <= k < accounts.len() && !unresolved_key((#[trigger] accounts[k]).account_key))
            ==> is_current(accounts, key),
{
}

/// What else is read of a snapshot is read by name: its generation, its days, and when it was
/// fetched, which is now where it does not say.
pub proof fn lemma_snapshot_is_read_by_name(snapshot: JsonView, now: i64)
    ensures
        integer_of(field(snapshot, "generation"@)) is None ==> generation_of(snapshot) is None,
        integer_of(field(snapshot, "generation"@)) matches Some(n) ==> (generation_of(
            snapshot,
        ) matches Some(m) && (i64::MIN <= n <= i64::MAX ==> m == n)),
        field(snapshot, "usage"@) is None ==> snapshot_days(snapshot).len() == 0,
        items_of(field_of(field(snapshot, "usage"@), "dailyUsageBuckets"@)) matches Some(days)
            ==> snapshot_days(snapshot) == days,
        integer_of(field(snapshot, "fetchedAt"@)) matches Some(n) ==> (0 <= n <= 10_000_000_000
            ==> fetched_at(snapshot, now) == n),
        integer_of(field(snapshot, "fetchedAt"@)) is None ==> fetched_at(snapshot, now) == now,
{
}

} // verus!
