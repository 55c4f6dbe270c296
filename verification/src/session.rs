//! Saved sessions: file names, session names, timestamps and the order in
//! which sessions are listed.

use vstd::prelude::*;
use crate::app::{Message, MessageRole, Mode};
use crate::text::{
    chars_of, char_is_whitespace, class_pred, decimal, decimal_string, is_white_space, slice_range,
    string_of, text_le, text_le_exec, trim_by, trim_range, zero_padded, zero_padded_string, CharClass,
    lemma_text_le_total, lemma_text_le_trans, span, rspan, trim_start_by, lemma_span_le, lemma_rspan_le,
};

verus! {

/// A saved session: both conversations and their state.
pub struct SessionData {
    pub session_name: String,
    pub created_at: String,
    pub updated_at: String,
    pub plan_messages: Vec<Message>,
    pub build_messages: Vec<Message>,
    pub plan_artifact: Option<String>,
    pub current_mode: Mode,
}

/// What the session list shows of a saved session.
pub struct SessionInfo {
    pub filename: String,
    pub session_name: String,
    pub updated_at: String,
}

/// Characters that cannot stand in a file name.
pub open spec fn forbidden_in_filename(c: char) -> bool {
    c == '/' || c == '\\' || c == '\0' || c == ':' || c == '*' || c == '?' || c == '"' || c == '<'
        || c == '>' || c == '|'
}

/// A character as it appears in a file name: forbidden characters and white
/// space become `_`.
pub open spec fn filename_char(c: char) -> char {
    if forbidden_in_filename(c) || is_white_space(c) {
        '_'
    } else {
        c
    }
}

/// `sanitize_filename`: the first `max_len` characters of `name` made safe
/// for a file name, without leading or trailing `_`; `session` when nothing
/// remains.
pub open spec fn sanitized(name: Seq<char>, max_len: nat) -> Seq<char> {
    let mapped = name.map_values(|c: char| filename_char(c));
    let cut = if mapped.len() <= max_len { mapped } else { mapped.take(max_len as int) };
    let t = trim_by(cut, class_pred(CharClass::Underscore));
    if t.len() == 0 {
        "session"@
    } else {
        t
    }
}

/// A sanitized name is never empty; unless it is the fallback `session`, it
/// has at most `max_len` characters, does not begin or end with `_`, and
/// each of its characters is `_` or one that is neither forbidden in file
/// names nor white space.
pub proof fn sanitized_is_safe(name: Seq<char>, max_len: nat)
    ensures
        sanitized(name, max_len).len() > 0,
        sanitized(name, max_len) != "session"@ ==> ({
            let r = sanitized(name, max_len);
            &&& r.len() <= max_len
            &&& r[0] != '_'
            &&& r.last() != '_'
            &&& forall|i: int| 0 <= i < r.len() ==> #[trigger] r[i] == '_'
                || (!forbidden_in_filename(r[i]) && !is_white_space(r[i]))
        }),
{
    reveal_strlit("session");
    let mapped = name.map_values(|c: char| filename_char(c));
    let cut = if mapped.len() <= max_len { mapped } else { mapped.take(max_len as int) };
    let p = class_pred(CharClass::Underscore);
    let u = trim_start_by(cut, p);
    let t = trim_by(cut, p);
    lemma_span_le(cut, p);
    lemma_rspan_le(u, p);
    if t.len() > 0 {
        let a = span(cut, p) as int;
        let n = t.len() as int;
        assert(t =~= cut.subrange(a, a + n));
        assert(u[0] == cut[a]);
        assert forall|i: int| 0 <= i < t.len() implies #[trigger] t[i] == '_'
            || (!forbidden_in_filename(t[i]) && !is_white_space(t[i])) by {
            assert(t[i] == cut[a + i]);
            assert(cut[a + i] == mapped[a + i]);
            assert(mapped[a + i] == filename_char(name[a + i]));
        }
        assert(t.last() == u[u.len() - 1 - rspan(u, p)]);
    }
}

/// `sanitize_filename`: a safe file name of at most `max_len` characters
/// made from `name`.
pub fn sanitize_filename(name: &str, max_len: usize) -> (r: String)
    ensures
        r@ == sanitized(name@, max_len as nat),
{
    let v = chars_of(name);
    let mut mapped: Vec<char> = Vec::new();
    let mut i: usize = 0;
    while i < v.len() && i < max_len
        invariant
            i <= v@.len(),
            i <= max_len,
            mapped@ == v@.map_values(|c: char| filename_char(c)).take(i as int),
        decreases v@.len() - i,
    {
        let c = v[i];
        let m = if c == '/' || c == '\\' || c == '\0' || c == ':' || c == '*' || c == '?' || c == '"'
            || c == '<' || c == '>' || c == '|' || char_is_whitespace(c) {
            '_'
        } else {
            c
        };
        mapped.push(m);
        assert(mapped@ =~= v@.map_values(|c: char| filename_char(c)).take(i + 1));
        i += 1;
    }
    let ghost all = v@.map_values(|c: char| filename_char(c));
    assert(mapped@ =~= (if all.len() <= max_len { all } else { all.take(max_len as int) }));
    let (a, b) = trim_range(mapped.as_slice(), 0, mapped.len(), CharClass::Underscore);
    assert(mapped@.subrange(0, mapped@.len() as int) =~= mapped@);
    if a == b {
        return "session".to_owned();
    }
    string_of(slice_range(mapped.as_slice(), a, b))
}

/// Index of the first message from the user, or the length when none is.
pub open spec fn first_user(ms: Seq<Message>) -> int
    decreases ms.len(),
{
    if ms.len() == 0 {
        0
    } else if ms[0].role == MessageRole::User {
        0
    } else {
        1 + first_user(ms.drop_first())
    }
}

proof fn lemma_first_user(ms: Seq<Message>, i: int)
    requires
        0 <= i <= ms.len(),
        forall|j: int| 0 <= j < i ==> (#[trigger] ms[j]).role != MessageRole::User,
        i == ms.len() || ms[i].role == MessageRole::User,
    ensures
        first_user(ms) == i,
    decreases i,
{
    if i > 0 {
        let t = ms.drop_first();
        assert forall|j: int| 0 <= j < i - 1 implies (#[trigger] t[j]).role != MessageRole::User by {
            assert(t[j] == ms[j + 1]);
        }
        if i < ms.len() {
            assert(t[i - 1] == ms[i]);
        }
        lemma_first_user(t, i - 1);
    }
}

/// `generate_session_name`: the first user message of the plan and then the
/// build conversation, made into a file name of at most 40 characters;
/// `session` when there is none.
pub open spec fn session_name_for(plan: Seq<Message>, build: Seq<Message>) -> Seq<char> {
    let all = plan + build;
    let i = first_user(all);
    if i < all.len() {
        sanitized(all[i].content@, 40)
    } else {
        "session"@
    }
}

/// A session is named after the first user message of its plan
/// conversation, whatever the build conversation holds; only when the plan
/// conversation has no user message is it named after the first user
/// message of the build conversation, and it is named `session` when
/// neither has one.
pub proof fn session_named_after_first_user_message(plan: Seq<Message>, build: Seq<Message>)
    ensures
        forall|i: int| 0 <= i < plan.len() && plan[i].role == MessageRole::User
            && (forall|j: int| 0 <= j < i ==> (#[trigger] plan[j]).role != MessageRole::User)
            ==> session_name_for(plan, build) == sanitized(#[trigger] plan[i].content@, 40),
        forall|i: int| 0 <= i < build.len() && build[i].role == MessageRole::User
            && (forall|j: int| 0 <= j < plan.len() ==> (#[trigger] plan[j]).role != MessageRole::User)
            && (forall|j: int| 0 <= j < i ==> (#[trigger] build[j]).role != MessageRole::User)
            ==> session_name_for(plan, build) == sanitized(#[trigger] build[i].content@, 40),
        (forall|j: int| 0 <= j < plan.len() ==> (#[trigger] plan[j]).role != MessageRole::User)
            && (forall|j: int| 0 <= j < build.len() ==> (#[trigger] build[j]).role != MessageRole::User)
            ==> session_name_for(plan, build) == "session"@,
{
    let all = plan + build;
    assert forall|i: int| 0 <= i < plan.len() && plan[i].role == MessageRole::User
        && (forall|j: int| 0 <= j < i ==> (#[trigger] plan[j]).role != MessageRole::User)
        implies session_name_for(plan, build) == sanitized(#[trigger] plan[i].content@, 40) by {
        assert forall|j: int| 0 <= j < i implies (#[trigger] all[j]).role != MessageRole::User by {
            assert(all[j] == plan[j]);
        }
        assert(all[i] == plan[i]);
        lemma_first_user(all, i);
    }
    assert forall|i: int| 0 <= i < build.len() && build[i].role == MessageRole::User
        && (forall|j: int| 0 <= j < plan.len() ==> (#[trigger] plan[j]).role != MessageRole::User)
        && (forall|j: int| 0 <= j < i ==> (#[trigger] build[j]).role != MessageRole::User)
        implies session_name_for(plan, build) == sanitized(#[trigger] build[i].content@, 40) by {
        let k = plan.len() + i;
        assert forall|j: int| 0 <= j < k implies (#[trigger] all[j]).role != MessageRole::User by {
            if j < plan.len() {
                assert(all[j] == plan[j]);
            } else {
                assert(all[j] == build[j - plan.len()]);
            }
        }
        assert(all[k] == build[i]);
        lemma_first_user(all, k);
    }
    if (forall|j: int| 0 <= j < plan.len() ==> (#[trigger] plan[j]).role != MessageRole::User)
        && (forall|j: int| 0 <= j < build.len() ==> (#[trigger] build[j]).role != MessageRole::User) {
        assert forall|j: int| 0 <= j < all.len() implies (#[trigger] all[j]).role != MessageRole::User by {
            if j < plan.len() {
                assert(all[j] == plan[j]);
            } else {
                assert(all[j] == build[j - plan.len()]);
            }
        }
        lemma_first_user(all, all.len() as int);
    }
}

/// `generate_session_name`: a name for a session from its first user message.
pub fn generate_session_name(plan_messages: &[Message], build_messages: &[Message]) -> (r: String)
    ensures
        r@ == session_name_for(plan_messages@, build_messages@),
{
    let ghost all = plan_messages@ + build_messages@;
    let mut i: usize = 0;
    while i < plan_messages.len() && plan_messages[i].role != MessageRole::User
        invariant
            i <= plan_messages@.len(),
            all == plan_messages@ + build_messages@,
            forall|j: int| 0 <= j < i ==> (#[trigger] all[j]).role != MessageRole::User,
        decreases plan_messages@.len() - i,
    {
        i += 1;
    }
    if i < plan_messages.len() {
        proof {
            lemma_first_user(all, i as int);
        }
        return sanitize_filename(plan_messages[i].content.as_str(), 40);
    }
    let mut j: usize = 0;
    while j < build_messages.len() && build_messages[j].role != MessageRole::User
        invariant
            j <= build_messages@.len(),
            all == plan_messages@ + build_messages@,
            forall|q: int| 0 <= q < plan_messages@.len() + j ==> (#[trigger] all[q]).role != MessageRole::User,
        decreases build_messages@.len() - j,
    {
        j += 1;
    }
    proof {
        lemma_first_user(all, plan_messages@.len() + j);
    }
    if j < build_messages.len() {
        return sanitize_filename(build_messages[j].content.as_str(), 40);
    }
    "session".to_owned()
}

/// The file name of a session saved at `ts`: `<name>_<ts>.json`.
pub open spec fn session_filename(name: Seq<char>, ts: nat) -> Seq<char> {
    name + "_"@ + decimal(ts) + ".json"@
}

/// The file name of a session saved at the given Unix time.
pub fn session_filename_at(session_name: &str, ts: u64) -> (r: String)
    ensures
        r@ == session_filename(session_name@, ts as nat),
{
    let mut r = session_name.to_owned();
    r.append("_");
    let d = decimal_string(ts);
    r.append(d.as_str());
    r.append(".json");
    r
}

/// The clock's time type, carried through opaquely.
#[verifier::external_type_specification]
#[verifier::external_body]
pub struct ExSystemTime(std::time::SystemTime);

/// The error of a time before the epoch, carried through opaquely.
#[verifier::external_type_specification]
#[verifier::external_body]
pub struct ExSystemTimeError(std::time::SystemTimeError);

/// `SystemTime::now`: the clock's reading. Nothing is promised of it.
#[verifier::external_body]
fn clock_now() -> std::time::SystemTime {
    std::time::SystemTime::now()
}

/// `SystemTime::duration_since` the Unix epoch: the time elapsed since the
/// epoch, or an error for a time before it. Nothing is stated of the value.
#[verifier::external_body]
fn since_epoch(t: &std::time::SystemTime) -> Result<std::time::Duration, std::time::SystemTimeError> {
    t.duration_since(std::time::UNIX_EPOCH)
}

/// `Duration::as_secs`: the whole seconds of a duration. Nothing is stated
/// of the value.
#[verifier::external_body]
fn whole_secs(d: &std::time::Duration) -> u64 {
    d.as_secs()
}

/// The current Unix time in seconds, zero for a clock before the epoch.
pub(crate) fn unix_timestamp() -> u64 {
    match since_epoch(&clock_now()) {
        Ok(d) => whole_secs(&d),
        Err(_) => 0,
    }
}

/// `make_session_filename`: the file name of a session saved now.
pub fn make_session_filename(session_name: &str) -> (r: String)
    ensures
        exists|ts: u64| r@ == session_filename(session_name@, ts as nat),
{
    let ts = unix_timestamp();
    session_filename_at(session_name, ts)
}

// ---------------------------------------------------------------------------
// Listing order
// ---------------------------------------------------------------------------

/// `infos` with `x` put before the first entry updated strictly earlier than
/// `x` (so after all entries updated at the same time or later).
pub open spec fn insert_newest_first(infos: Seq<SessionInfo>, x: SessionInfo) -> Seq<SessionInfo>
    decreases infos.len(),
{
    if infos.len() == 0 {
        seq![x]
    } else if text_le(infos[0].updated_at@, x.updated_at@) && infos[0].updated_at@ != x.updated_at@ {
        seq![x] + infos
    } else {
        seq![infos[0]] + insert_newest_first(infos.drop_first(), x)
    }
}

/// Sessions ordered newest first by their update time, entries updated at
/// the same time keeping their order (a stable sort, descending).
pub open spec fn newest_first(infos: Seq<SessionInfo>) -> Seq<SessionInfo>
    decreases infos.len(),
{
    if infos.len() == 0 {
        seq![]
    } else {
        insert_newest_first(newest_first(infos.drop_last()), infos.last())
    }
}

/// Where `insert_newest_first` puts `x`.
fn insert_position(sorted: &Vec<SessionInfo>, x: &SessionInfo) -> (k: usize)
    ensures
        k <= sorted@.len(),
        insert_newest_first(sorted@, *x) == sorted@.take(k as int).push(*x) + sorted@.skip(k as int),
{
    let xv = chars_of(x.updated_at.as_str());
    let mut k: usize = 0;
    assert(sorted@.skip(0) =~= sorted@);
    assert(sorted@.take(0) =~= Seq::<SessionInfo>::empty());
    while k < sorted.len()
        invariant
            k <= sorted@.len(),
            xv@ == x.updated_at@,
            insert_newest_first(sorted@, *x) == sorted@.take(k as int) + insert_newest_first(sorted@.skip(k as int), *x),
        decreases sorted@.len() - k,
    {
        let kv = chars_of(sorted[k].updated_at.as_str());
        let le = text_le_exec(kv.as_slice(), xv.as_slice());
        let eq = sorted[k].updated_at == x.updated_at;
        let ghost rest = sorted@.skip(k as int);
        assert(rest[0] == sorted@[k as int]);
        if le && !eq {
            assert(insert_newest_first(rest, *x) == seq![*x] + rest);
            assert(sorted@.take(k as int) + (seq![*x] + rest) =~= sorted@.take(k as int).push(*x) + sorted@.skip(k as int));
            return k;
        }
        assert(rest.drop_first() =~= sorted@.skip(k + 1));
        assert(sorted@.take(k as int) + (seq![sorted@[k as int]] + insert_newest_first(sorted@.skip(k + 1), *x))
            =~= sorted@.take(k + 1) + insert_newest_first(sorted@.skip(k + 1), *x));
        k += 1;
    }
    assert(sorted@.skip(k as int) =~= Seq::<SessionInfo>::empty());
    assert(sorted@.take(k as int) + seq![*x] =~= sorted@.take(k as int).push(*x) + sorted@.skip(k as int));
    k
}

/// The order of `list_sessions`: newest first by update time.
pub fn sort_sessions(infos: Vec<SessionInfo>) -> (r: Vec<SessionInfo>)
    ensures
        r@ == newest_first(infos@),
{
    let mut sorted: Vec<SessionInfo> = Vec::new();
    let mut rest = infos;
    let ghost orig = rest@;
    let total = rest.len();
    let mut i: usize = 0;
    assert(orig.take(0) =~= Seq::<SessionInfo>::empty());
    while rest.len() > 0
        invariant
            total == orig.len(),
            i + rest@.len() == orig.len(),
            rest@ == orig.skip(i as int),
            sorted@ == newest_first(orig.take(i as int)),
        decreases rest@.len(),
    {
        let x = rest.remove(0);
        let k = insert_position(&sorted, &x);
        sorted.insert(k, x);
        proof {
            assert(orig.take(i + 1).drop_last() =~= orig.take(i as int));
            assert(orig.take(i + 1).last() == x);
            assert(sorted@ =~= newest_first(orig.take(i + 1)));
            assert(rest@ =~= orig.skip(i + 1));
        }
        i += 1;
    }
    assert(orig.take(i as int) =~= orig);
    sorted
}


/// Every session was updated no earlier than each one after it.
pub open spec fn newest_first_order(s: Seq<SessionInfo>) -> bool {
    forall|i: int, j: int| 0 <= i < j < s.len() ==> text_le(s[j].updated_at@, s[i].updated_at@)
}

proof fn lemma_text_le_refl(a: Seq<char>)
    ensures
        text_le(a, a),
    decreases a.len(),
{
    if a.len() > 0 {
        lemma_text_le_refl(a.drop_first());
    }
}

proof fn lemma_insert_newest_bound(infos: Seq<SessionInfo>, x: SessionInfo, h: Seq<char>)
    requires
        text_le(x.updated_at@, h),
        forall|j: int| 0 <= j < infos.len() ==> text_le((#[trigger] infos[j]).updated_at@, h),
    ensures
        forall|k: int| 0 <= k < insert_newest_first(infos, x).len()
            ==> text_le((#[trigger] insert_newest_first(infos, x)[k]).updated_at@, h),
    decreases infos.len(),
{
    if infos.len() > 0 && !(text_le(infos[0].updated_at@, x.updated_at@) && infos[0].updated_at@ != x.updated_at@) {
        let rest = infos.drop_first();
        assert forall|j: int| 0 <= j < rest.len() implies text_le((#[trigger] rest[j]).updated_at@, h) by {
            assert(rest[j] == infos[j + 1]);
        }
        lemma_insert_newest_bound(rest, x, h);
        let r = insert_newest_first(rest, x);
        assert forall|k: int| 0 <= k < insert_newest_first(infos, x).len()
            implies text_le((#[trigger] insert_newest_first(infos, x)[k]).updated_at@, h) by {
            if k > 0 {
                assert(insert_newest_first(infos, x)[k] == r[k - 1]);
            }
        }
    }
}

proof fn lemma_insert_newest(infos: Seq<SessionInfo>, x: SessionInfo)
    requires
        newest_first_order(infos),
    ensures
        newest_first_order(insert_newest_first(infos, x)),
        insert_newest_first(infos, x).to_multiset() == infos.to_multiset().insert(x),
    decreases infos.len(),
{
    broadcast use vstd::seq_lib::group_to_multiset_ensures;
    if infos.len() == 0 {
        assert(insert_newest_first(infos, x) =~= Seq::<SessionInfo>::empty().push(x));
    } else if text_le(infos[0].updated_at@, x.updated_at@) && infos[0].updated_at@ != x.updated_at@ {
        let r = insert_newest_first(infos, x);
        assert forall|i: int, j: int| 0 <= i < j < r.len() implies text_le(r[j].updated_at@, r[i].updated_at@) by {
            if i == 0 {
                if j == 1 {
                    assert(r[j] == infos[0]);
                } else {
                    assert(text_le(infos[j - 1].updated_at@, infos[0].updated_at@));
                    lemma_text_le_trans(infos[j - 1].updated_at@, infos[0].updated_at@, x.updated_at@);
                    assert(r[j] == infos[j - 1]);
                }
            } else {
                assert(r[i] == infos[i - 1] && r[j] == infos[j - 1]);
            }
        }
        vstd::seq_lib::lemma_multiset_commutative(seq![x], infos);
        assert(seq![x].to_multiset() =~= Seq::<SessionInfo>::empty().push(x).to_multiset());
        assert(Seq::<SessionInfo>::empty().to_multiset() =~= vstd::multiset::Multiset::<SessionInfo>::empty());
        assert(r.to_multiset() =~= infos.to_multiset().insert(x));
    } else {
        let h = infos[0];
        let rest = infos.drop_first();
        assert forall|i: int, j: int| 0 <= i < j < rest.len() implies text_le(rest[j].updated_at@, rest[i].updated_at@) by {
            assert(rest[i] == infos[i + 1] && rest[j] == infos[j + 1]);
        }
        lemma_insert_newest(rest, x);
        let ins = insert_newest_first(rest, x);
        let r = insert_newest_first(infos, x);
        assert(r == seq![h] + ins);
        if x.updated_at@ == h.updated_at@ {
            lemma_text_le_refl(h.updated_at@);
        } else {
            lemma_text_le_total(x.updated_at@, h.updated_at@);
        }
        assert forall|j: int| 0 <= j < rest.len() implies text_le((#[trigger] rest[j]).updated_at@, h.updated_at@) by {
            assert(rest[j] == infos[j + 1]);
        }
        lemma_insert_newest_bound(rest, x, h.updated_at@);
        assert forall|i: int, j: int| 0 <= i < j < r.len() implies text_le(r[j].updated_at@, r[i].updated_at@) by {
            if i == 0 {
                assert(r[j] == ins[j - 1]);
            } else {
                assert(r[i] == ins[i - 1] && r[j] == ins[j - 1]);
            }
        }
        vstd::seq_lib::lemma_multiset_commutative(seq![h], ins);
        vstd::seq_lib::lemma_multiset_commutative(seq![h], rest);
        assert(seq![h] + rest =~= infos);
        assert(r.to_multiset() =~= infos.to_multiset().insert(x));
    }
}

/// `list_sessions` shows every session once, the most recently updated
/// first.
pub proof fn newest_first_sorted(infos: Seq<SessionInfo>)
    ensures
        newest_first_order(newest_first(infos)),
        newest_first(infos).to_multiset() == infos.to_multiset(),
    decreases infos.len(),
{
    broadcast use vstd::seq_lib::group_to_multiset_ensures;
    if infos.len() == 0 {
        assert(newest_first(infos) =~= infos);
    } else {
        newest_first_sorted(infos.drop_last());
        lemma_insert_newest(newest_first(infos.drop_last()), infos.last());
        assert(infos.drop_last().push(infos.last()) =~= infos);
    }
}

// ---------------------------------------------------------------------------
// Calendar
// ---------------------------------------------------------------------------


pub open spec fn is_leap_year(y: int) -> bool {
    (y % 4 == 0 && y % 100 != 0) || y % 400 == 0
}

pub open spec fn days_in_month(y: int, m: int) -> int {
    if m == 2 {
        if is_leap_year(y) { 29 } else { 28 }
    } else if m == 4 || m == 6 || m == 9 || m == 11 {
        30
    } else {
        31
    }
}

pub open spec fn days_before_month(y: int, m: int) -> int {
    let base: int = if m <= 1 { 0 } else if m == 2 { 31 } else if m == 3 { 59 } else if m == 4 { 90 }
        else if m == 5 { 120 } else if m == 6 { 151 } else if m == 7 { 181 } else if m == 8 { 212 }
        else if m == 9 { 243 } else if m == 10 { 273 } else if m == 11 { 304 } else { 334 };
    base + if m > 2 && is_leap_year(y) { 1int } else { 0int }
}

pub open spec fn leap_years_through(n: int) -> int {
    n / 4 - n / 100 + n / 400
}

pub open spec fn days_from_civil(y: int, m: int, d: int) -> int {
    365 * (y - 1970) + leap_years_through(y - 1) - leap_years_through(1969) + days_before_month(y, m) + d - 1
}

pub open spec fn valid_date(y: int, m: int, d: int) -> bool {
    1 <= m <= 12 && 1 <= d <= days_in_month(y, m)
}

pub open spec fn yoe_of(doe: int) -> int {
    (doe - doe / 1460 + doe / 36524 - doe / 146096) / 365
}

pub open spec fn year_start(yoe: int) -> int {
    365 * yoe + yoe / 4 - yoe / 100
}

proof fn lemma_year_of_era(doe: int)
    requires
        0 <= doe <= 146096,
    ensures
        0 <= yoe_of(doe) <= 399,
        year_start(yoe_of(doe)) <= doe,
        doe - year_start(yoe_of(doe)) < 365 + (if is_leap_year(yoe_of(doe) + 1) { 1int } else { 0int }),
{
}

/// Days in the months of a year that starts in March, before month `mp`
/// (0 for March).
pub open spec fn march_days_before(mp: int) -> int {
    (153 * mp + 2) / 5
}

proof fn lemma_month_of_year(doy: int, leap: bool)
    requires
        0 <= doy < 365 + (if leap { 1int } else { 0int }),
    ensures
        0 <= (5 * doy + 2) / 153 <= 11,
        march_days_before((5 * doy + 2) / 153) <= doy,
        ({
            let mp = (5 * doy + 2) / 153;
            let m = if mp < 10 { mp + 3 } else { mp - 9 };
            let len: int = if m == 2 { if leap { 29 } else { 28 } } else if m == 4 || m == 6 || m == 9 || m == 11 { 30 } else { 31 };
            doy - march_days_before(mp) < len
        }),
{
}

proof fn lemma_div_step(y: int, c: int)
    requires
        c > 0,
    ensures
        y / c == (y - 1) / c + (if y % c == 0 { 1int } else { 0int }),
{
    vstd::arithmetic::div_mod::lemma_fundamental_div_mod(y, c);
    vstd::arithmetic::div_mod::lemma_fundamental_div_mod(y - 1, c);
    vstd::arithmetic::div_mod::lemma_mod_bound(y, c);
    vstd::arithmetic::div_mod::lemma_mod_bound(y - 1, c);
    let q = y / c;
    let p = (y - 1) / c;
    assert(c * q + y % c == c * p + (y - 1) % c + 1);
    if q > p + 1 {
        assert(c * q >= c * p + 2 * c) by (nonlinear_arith)
            requires q >= p + 2, c > 0;
    }
    if q < p {
        assert(c * q <= c * p - c) by (nonlinear_arith)
            requires q <= p - 1, c > 0;
    }
    if q == p + 1 {
        assert(c * q == c * p + c) by (nonlinear_arith)
            requires q == p + 1;
        assert(y % c == 0);
    } else if q == p {
        assert(y % c == (y - 1) % c + 1);
    }
}

proof fn lemma_leap_step(y: int)
    ensures
        leap_years_through(y) == leap_years_through(y - 1) + (if is_leap_year(y) { 1int } else { 0int }),
{
    lemma_div_step(y, 4);
    lemma_div_step(y, 100);
    lemma_div_step(y, 400);
    vstd::arithmetic::div_mod::lemma_mod_mod(y, 4, 25);
    vstd::arithmetic::div_mod::lemma_mod_mod(y, 100, 4);
    vstd::arithmetic::div_mod::lemma_mod_mod(y, 4, 100);
}

proof fn lemma_div_shift(x: int, k: int, c: int)
    requires
        c > 0,
    ensures
        (x + k * c) / c == x / c + k,
{
    vstd::arithmetic::div_mod::lemma_fundamental_div_mod(x, c);
    vstd::arithmetic::div_mod::lemma_div_multiples_vanish_fancy(k, x % c, c);
    assert(x + k * c == c * (x / c + k) + x % c) by (nonlinear_arith)
        requires x == c * (x / c) + x % c;
    vstd::arithmetic::div_mod::lemma_fundamental_div_mod_converse(x + k * c, c, x / c + k, x % c);
}

proof fn lemma_leap_shift(yoe: int, era: int)
    requires
        0 <= yoe <= 399,
    ensures
        leap_years_through(yoe + era * 400) == yoe / 4 - yoe / 100 + 97 * era,
{
    lemma_div_shift(yoe, era * 100, 4);
    lemma_div_shift(yoe, era * 4, 100);
    lemma_div_shift(yoe, era, 400);
    assert(era * 100 * 4 == era * 400);
    assert(era * 4 * 100 == era * 400);
}

proof fn lemma_civil_days(era: int, yoe: int, doy: int, mp: int, d: int)
    requires
        0 <= yoe <= 399,
        0 <= mp <= 11,
        doy == march_days_before(mp) + d - 1,
    ensures
        ({
            let m = if mp < 10 { mp + 3 } else { mp - 9 };
            let y = yoe + era * 400 + (if m <= 2 { 1int } else { 0int });
            days_from_civil(y, m, d) == era * 146097 + year_start(yoe) + doy - 719468
        }),
{
    let y0 = yoe + era * 400;
    lemma_leap_shift(yoe, era);
    lemma_leap_step(y0);
    assert(leap_years_through(1969) == 477);
    let m = if mp < 10 { mp + 3 } else { mp - 9 };
    if mp < 10 {
        assert(days_before_month(y0, m) == march_days_before(mp) + 59 + (if is_leap_year(y0) { 1int } else { 0int }));
    } else {
        assert(days_before_month(y0 + 1, m) == march_days_before(mp) - 306);
    }
}

proof fn lemma_leap_period(x: int, era: int)
    ensures
        is_leap_year(x + era * 400) == is_leap_year(x),
{
    vstd::arithmetic::div_mod::lemma_mod_multiples_vanish(era * 100, x, 4);
    vstd::arithmetic::div_mod::lemma_mod_multiples_vanish(era * 4, x, 100);
    vstd::arithmetic::div_mod::lemma_mod_multiples_vanish(era, x, 400);
    assert(4 * (era * 100) == era * 400);
    assert(100 * (era * 4) == era * 400);
    assert(400 * era == era * 400);
}

/// `days_to_date`: the calendar date of a day counted from 1970-01-01.
pub fn days_to_date(days: i64) -> (r: (i64, i64, i64))
    requires
        days <= i64::MAX - 719468,
    ensures
        valid_date(r.0 as int, r.1 as int, r.2 as int),
        days_from_civil(r.0 as int, r.1 as int, r.2 as int) == days,
        (r.0 as int, r.1 as int, r.2 as int) == civil_date(days as int),
        days >= 0 ==> r.0 >= 1970,
{
    let z = days + 719468;
    let num = if z >= 0 { z } else { z - 146096 };
    let era = num / 146097;
    proof {
        assert(era as int == (z as int) / 146097);
    }
    let doe = z - era * 146097;
    let yoe = (doe - doe / 1460 + doe / 36524 - doe / 146096) / 365;
    proof {
        lemma_year_of_era(doe as int);
        assert(yoe as int == yoe_of(doe as int));
    }
    let y = yoe + era * 400;
    let doy = doe - (365 * yoe + yoe / 4 - yoe / 100);
    proof {
        lemma_month_of_year(doy as int, is_leap_year(yoe + 1));
    }
    let mp = (5 * doy + 2) / 153;
    let d = doy - (153 * mp + 2) / 5 + 1;
    let m = if mp < 10 { mp + 3 } else { mp - 9 };
    let y = if m <= 2 { y + 1 } else { y };
    proof {
        lemma_civil_days(era as int, yoe as int, doy as int, mp as int, d as int);
        lemma_leap_period(yoe + 1, era as int);
        lemma_civil_date(days as int, y as int, m as int, d as int);
        if days >= 0 {
            lemma_within_year(y as int, m as int, d as int);
            if y < 1970 {
                lemma_year_start_mono(y + 1, 1970);
            }
        }
    }
    (y, m, d)
}


/// The first day of year `y`.
pub open spec fn year_start_day(y: int) -> int {
    days_from_civil(y, 1, 1)
}

proof fn lemma_within_year(y: int, m: int, d: int)
    requires
        valid_date(y, m, d),
    ensures
        year_start_day(y) <= days_from_civil(y, m, d) < year_start_day(y + 1),
{
    lemma_leap_step(y);
}

proof fn lemma_year_start_mono(a: int, b: int)
    requires
        a <= b,
    ensures
        year_start_day(a) <= year_start_day(b),
    decreases b - a,
{
    if a < b {
        lemma_year_start_mono(a, b - 1);
        lemma_leap_step(b - 1);
    }
}

/// Distinct calendar dates fall on distinct days.
pub proof fn civil_days_injective(y1: int, m1: int, d1: int, y2: int, m2: int, d2: int)
    requires
        valid_date(y1, m1, d1),
        valid_date(y2, m2, d2),
        days_from_civil(y1, m1, d1) == days_from_civil(y2, m2, d2),
    ensures
        y1 == y2 && m1 == m2 && d1 == d2,
{
    lemma_within_year(y1, m1, d1);
    lemma_within_year(y2, m2, d2);
    if y1 < y2 {
        lemma_year_start_mono(y1 + 1, y2);
    } else if y2 < y1 {
        lemma_year_start_mono(y2 + 1, y1);
    } else {
        assert(m1 == m2);
    }
}


/// The calendar date of day `days` counted from 1970-01-01 (day 0).
pub open spec fn civil_date(days: int) -> (int, int, int) {
    choose|t: (int, int, int)| valid_date(t.0, t.1, t.2) && days_from_civil(t.0, t.1, t.2) == days
}

proof fn lemma_civil_date(days: int, y: int, m: int, d: int)
    requires
        valid_date(y, m, d),
        days_from_civil(y, m, d) == days,
    ensures
        civil_date(days) == (y, m, d),
{
    let w = (y, m, d);
    assert(valid_date(w.0, w.1, w.2) && days_from_civil(w.0, w.1, w.2) == days);
    let t = civil_date(days);
    civil_days_injective(t.0, t.1, t.2, y, m, d);
}

/// The calendar day after a date.
pub open spec fn next_date(y: int, m: int, d: int) -> (int, int, int) {
    if d < days_in_month(y, m) {
        (y, m, d + 1)
    } else if m < 12 {
        (y, m + 1, 1)
    } else {
        (y + 1, 1, 1)
    }
}

/// The day after a valid date is a valid date, one day number later.
pub proof fn next_date_is_next_day(y: int, m: int, d: int)
    requires
        valid_date(y, m, d),
    ensures
        valid_date(next_date(y, m, d).0, next_date(y, m, d).1, next_date(y, m, d).2),
        days_from_civil(next_date(y, m, d).0, next_date(y, m, d).1, next_date(y, m, d).2) == days_from_civil(y, m, d) + 1,
{
    if d < days_in_month(y, m) {
    } else if m < 12 {
        assert(days_before_month(y, m + 1) == days_before_month(y, m) + days_in_month(y, m));
    } else {
        lemma_leap_step(y);
        assert(days_from_civil(y + 1, 1, 1) == 365 * (y + 1 - 1970) + leap_years_through(y) - leap_years_through(1969));
        assert(days_from_civil(y, 12, 31) == 365 * (y - 1970) + leap_years_through(y - 1) - leap_years_through(1969) + 334 + (if is_leap_year(y) { 1int } else { 0int }) + 30);
    }
}

/// Day numbers and dates go together: the date of the day number of a valid
/// date is that date, and the date of the next day number is the next
/// calendar day. With `days_to_date`'s contract (its result is
/// `civil_date` of its argument), `days_to_date(n + 1)` is the day after
/// `days_to_date(n)`.
pub proof fn civil_date_next(y: int, m: int, d: int)
    requires
        valid_date(y, m, d),
    ensures
        civil_date(days_from_civil(y, m, d)) == (y, m, d),
        civil_date(days_from_civil(y, m, d) + 1) == next_date(y, m, d),
{
    lemma_civil_date(days_from_civil(y, m, d), y, m, d);
    next_date_is_next_day(y, m, d);
    let t = next_date(y, m, d);
    lemma_civil_date(days_from_civil(y, m, d) + 1, t.0, t.1, t.2);
}

/// The date and clock time of a Unix time in seconds:
/// `(year, month, day, hours, minutes, seconds)`.
pub open spec fn datetime(secs: nat) -> (int, int, int, nat, nat, nat) {
    let (y, m, d) = civil_date((secs / 86400) as int);
    (y, m, d, (secs % 86400) / 3600, (secs % 3600) / 60, secs % 60)
}

/// `secs_to_datetime`: the date and clock time of a Unix time.
pub fn secs_to_datetime(secs: u64) -> (r: (i64, i64, i64, u64, u64, u64))
    ensures
        (r.0 as int, r.1 as int, r.2 as int, r.3 as nat, r.4 as nat, r.5 as nat) == datetime(secs as nat),
        valid_date(r.0 as int, r.1 as int, r.2 as int),
        r.0 >= 1970,
        r.3 < 24 && r.4 < 60 && r.5 < 60,
{
    let days = (secs / 86400) as i64;
    let tod = secs % 86400;
    let hh = tod / 3600;
    let mm = (tod % 3600) / 60;
    let ss = tod % 60;
    let (y, m, d) = days_to_date(days);
    proof {
        assert((secs as nat % 86400) % 3600 == secs as nat % 3600) by {
            vstd::arithmetic::div_mod::lemma_mod_mod(secs as int, 3600, 24);
        }
        assert((secs as nat % 86400) % 60 == secs as nat % 60) by {
            vstd::arithmetic::div_mod::lemma_mod_mod(secs as int, 60, 1440);
        }
    }
    (y, m, d, hh, mm, ss)
}

/// A date and time as `now_readable` writes it: `YYYY-MM-DD HH:MM:SS`.
pub open spec fn readable(t: (int, int, int, nat, nat, nat)) -> Seq<char> {
    zero_padded(t.0 as nat, 4) + "-"@ + zero_padded(t.1 as nat, 2) + "-"@ + zero_padded(t.2 as nat, 2) + " "@
        + zero_padded(t.3, 2) + ":"@ + zero_padded(t.4, 2) + ":"@ + zero_padded(t.5, 2)
}

/// The readable form of a Unix time.
pub fn readable_time(secs: u64) -> (r: String)
    ensures
        r@ == readable(datetime(secs as nat)),
{
    let (y, m, d, hh, mm, ss) = secs_to_datetime(secs);
    let mut r = zero_padded_string(y as u64, 4);
    r.append("-");
    r.append(zero_padded_string(m as u64, 2).as_str());
    r.append("-");
    r.append(zero_padded_string(d as u64, 2).as_str());
    r.append(" ");
    r.append(zero_padded_string(hh, 2).as_str());
    r.append(":");
    r.append(zero_padded_string(mm, 2).as_str());
    r.append(":");
    r.append(zero_padded_string(ss, 2).as_str());
    r
}

/// `now_readable`: the current time in readable form.
pub fn now_readable() -> (r: String)
    ensures
        exists|secs: u64| r@ == readable(datetime(secs as nat)),
{
    let secs = unix_timestamp();
    readable_time(secs)
}

} // verus!
