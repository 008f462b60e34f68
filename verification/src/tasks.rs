//! The task record and the journal operations.
//!
//! Every operation is a pure function of a storage snapshot handed in as a
//! string: it decodes the snapshot, applies its mutation, and returns the new
//! snapshot to be written back (or the listing to be printed). Reading the
//! file and writing it back stay with the caller.

use vstd::prelude::*;
use crate::codec::TaskView;
use crate::codec::tasks_wf;
use crate::codec::spec_encode;
use crate::codec::spec_tasks_of;
use crate::codec::spec_digits;
use crate::codec::encode_record;
use crate::codec::decode_content;
use crate::codec::pairs_views;
use crate::codec::u64_digits;
use crate::codec::string_from_chars;
use crate::codec::lemma_body_snoc;
use crate::codec::lemma_round_trip;
use crate::codec::spec_encode_body;

verus! {

/// One journal entry: its description text and its creation instant, in
/// whole seconds since the Unix epoch (UTC).
#[derive(Debug)]
pub struct Task {
    pub text: String,
    pub created_at: i64,
}

impl View for Task {
    type V = TaskView;

    open spec fn view(&self) -> TaskView {
        TaskView { text: self.text@, created_at: self.created_at as int }
    }
}

/// The views of a list of tasks.
pub open spec fn task_views(ts: Seq<Task>) -> Seq<TaskView> {
    ts.map_values(|t: Task| t@)
}

/// The views of a list of time stamps.
pub open spec fn stamp_views(ss: Seq<String>) -> Seq<Seq<char>> {
    ss.map_values(|s: String| s@)
}

/// Why an operation failed: the stored document could not be decoded, or the
/// removal position was out of range.
#[derive(Debug, PartialEq, Eq, Structural)]
pub enum JournalError {
    Decode,
    InvalidInput,
}

/// Relies on chrono's `Utc::now` and `DateTime::timestamp`: the current wall
/// clock, as whole seconds since the Unix epoch. The result depends on the
/// clock, so nothing is promised of it.
#[verifier::external_body]
fn now_seconds() -> i64 {
    chrono::Utc::now().timestamp()
}

/// Relies on chrono's `DateTime::from_timestamp`, `with_timezone` and
/// `format`: the instant rendered in the machine's local timezone as
/// `"%F %H:%M"`, or nothing when the instant is outside chrono's range.
/// The result depends on the machine's timezone, so nothing is promised
/// of it.
#[verifier::external_body]
fn local_stamp(secs: i64) -> Option<String> {
    chrono::DateTime::<chrono::Utc>::from_timestamp(secs, 0).map(
        |dt| dt.with_timezone(&chrono::Local).format("%F %H:%M").to_string(),
    )
}

impl Task {
    /// Builds a task with the given text, created at the current instant.
    /// Any text is accepted, the empty string included.
    pub fn new(text: String) -> (r: Task)
        ensures
            r@.text == text@,
    {
        let created_at = now_seconds();
        Task { text: text, created_at: created_at }
    }
}

/// Decodes a storage snapshot into the task list it holds: a zero-length
/// snapshot is the empty list, anything else must be a well-formed document.
pub fn collect_tasks(content: &str) -> (r: Result<Vec<Task>, JournalError>)
    ensures
        match r {
            Ok(ts) => spec_tasks_of(content@) == Some(task_views(ts@)),
            Err(e) => spec_tasks_of(content@) is None && e == JournalError::Decode,
        },
{
    if content.unicode_len() == 0 {
        let ts: Vec<Task> = Vec::new();
        proof {
            assert(task_views(ts@) =~= Seq::<TaskView>::empty());
        }
        return Ok(ts);
    }
    let ps = match decode_content(content) {
        Some(ps) => ps,
        None => {
            return Err(JournalError::Decode);
        },
    };
    let mut ts: Vec<Task> = Vec::new();
    let mut i: usize = 0;
    while i < ps.len()
        invariant
            i <= ps.len(),
            ts@.len() == i,
            task_views(ts@) == pairs_views(ps@).take(i as int),
        decreases ps.len() - i,
    {
        let text = ps[i].0.clone();
        let created_at = ps[i].1;
        let ghost tsold = ts@;
        ts.push(Task { text: text, created_at: created_at });
        proof {
            let pv = pairs_views(ps@);
            assert(ts@[i as int]@ == pv[i as int]);
            assert forall|m: int| 0 <= m < i + 1 implies #[trigger] task_views(ts@)[m] == pv.take(
                i + 1,
            )[m] by {
                if m < i {
                    assert(ts@[m] == tsold[m]);
                    assert(task_views(tsold)[m] == pv.take(i as int)[m]);
                }
            }
            assert(task_views(ts@) =~= pv.take(i + 1));
        }
        i = i + 1;
    }
    proof {
        assert(pairs_views(ps@).take(ps@.len() as int) =~= pairs_views(ps@));
    }
    Ok(ts)
}

/// Encodes a task list as the storage document that `spec_encode` describes.
pub fn encode_tasks(tasks: &Vec<Task>) -> (r: String)
    ensures
        r@ == spec_encode(task_views(tasks@)),
{
    let ghost tv = task_views(tasks@);
    let mut out: Vec<char> = Vec::new();
    out.push('[');
    let mut i: usize = 0;
    while i < tasks.len()
        invariant
            i <= tasks.len(),
            tv == task_views(tasks@),
            out@ == seq!['['] + spec_encode_body(tv.take(i as int)),
        decreases tasks.len() - i,
    {
        if i > 0 {
            out.push(',');
        }
        encode_record(&mut out, tasks[i].text.as_str(), tasks[i].created_at);
        proof {
            lemma_body_snoc(tv.take(i as int), tv[i as int]);
            assert(tv.take(i + 1) =~= tv.take(i as int) + seq![tv[i as int]]);
            assert(tv[i as int] == TaskView {
                text: tasks@[i as int].text@,
                created_at: tasks@[i as int].created_at as int,
            });
            assert(out@ =~= seq!['['] + spec_encode_body(tv.take(i + 1)));
        }
        i = i + 1;
    }
    out.push(']');
    proof {
        assert(tv.take(tv.len() as int) =~= tv);
        assert(out@ =~= spec_encode(tv));
    }
    string_from_chars(&out)
}

/// Appends a task to the list a snapshot holds and returns the new snapshot.
/// Succeeds on every decodable snapshot; fails only when decoding fails.
pub fn add_task(content: &str, task: Task) -> (r: Result<String, JournalError>)
    ensures
        spec_tasks_of(content@) matches Some(ts) ==> (r matches Ok(out) && out@ == spec_encode(
            ts.push(task@),
        )),
        spec_tasks_of(content@) is None ==> (r matches Err(e) && e == JournalError::Decode),
{
    let mut ts = match collect_tasks(content) {
        Ok(ts) => ts,
        Err(e) => {
            return Err(e);
        },
    };
    let ghost before = ts@;
    let ghost tview = task@;
    ts.push(task);
    proof {
        assert(task_views(ts@) =~= task_views(before).push(tview));
    }
    Ok(encode_tasks(&ts))
}

/// Removes the task at the given 1-based position from the list a snapshot
/// holds and returns the new snapshot. Fails with `InvalidInput` exactly
/// when the position is zero or beyond the end of the list; the records
/// around the removed one keep their relative order.
pub fn complete_task(content: &str, position: usize) -> (r: Result<String, JournalError>)
    ensures
        spec_tasks_of(content@) is None ==> (r matches Err(e) && e == JournalError::Decode),
        spec_tasks_of(content@) matches Some(ts) ==> ((position == 0 || position > ts.len()) ==> (
        r matches Err(e) && e == JournalError::InvalidInput)),
        spec_tasks_of(content@) matches Some(ts) ==> ((1 <= position <= ts.len()) ==> (
        r matches Ok(out) && out@ == spec_encode(ts.remove(position - 1)))),
{
    let mut ts = match collect_tasks(content) {
        Ok(ts) => ts,
        Err(e) => {
            return Err(e);
        },
    };
    if position == 0 || position > ts.len() {
        return Err(JournalError::InvalidInput);
    }
    let ghost before = ts@;
    ts.remove(position - 1);
    proof {
        assert(task_views(ts@) =~= task_views(before).remove(position - 1));
    }
    Ok(encode_tasks(&ts))
}

/// Spaces.
pub open spec fn spaces(n: nat) -> Seq<char>
    decreases n,
{
    if n == 0 {
        Seq::empty()
    } else {
        spaces((n - 1) as nat) + seq![' ']
    }
}

/// A task text padded with spaces at its right to the fixed minimum column
/// width of fifty characters; longer texts stand unchanged.
pub open spec fn spec_padded(text: Seq<char>) -> Seq<char> {
    if text.len() >= 50 {
        text
    } else {
        text + spaces((50 - text.len()) as nat)
    }
}

/// One rendered task: the padded text, a space, and the time stamp in
/// brackets.
pub open spec fn spec_render(text: Seq<char>, stamp: Seq<char>) -> Seq<char> {
    spec_padded(text) + seq![' ', '['] + stamp + seq![']']
}

/// The numbered listing lines from position `k + 1` on: each line holds the
/// 1-based position, a colon and a space, the rendered task, and a line
/// break.
pub open spec fn spec_listing_from(ts: Seq<TaskView>, stamps: Seq<Seq<char>>, k: nat) -> Seq<char>
    recommends
        ts.len() == stamps.len(),
    decreases ts.len() - k,
{
    if k >= ts.len() {
        Seq::empty()
    } else {
        spec_digits((k + 1) as nat) + seq![':', ' '] + spec_render(ts[k as int].text, stamps[k as int])
            + seq!['\n'] + spec_listing_from(ts, stamps, (k + 1) as nat)
    }
}

/// The whole numbered listing of a task list.
pub open spec fn spec_listing(ts: Seq<TaskView>, stamps: Seq<Seq<char>>) -> Seq<char> {
    spec_listing_from(ts, stamps, 0)
}

/// The notice printed in place of a listing when the list is empty.
pub open spec fn empty_notice() -> Seq<char> {
    "Task list is empty!"@
}

fn append_str_chars(out: &mut Vec<char>, s: &str)
    ensures
        final(out)@ == old(out)@ + s@,
{
    let n = s.unicode_len();
    let mut i: usize = 0;
    while i < n
        invariant
            i <= n,
            n == s@.len(),
            out@ == old(out)@ + s@.take(i as int),
        decreases n - i,
    {
        out.push(s.get_char(i));
        proof {
            assert(s@.take(i + 1) =~= s@.take(i as int) + seq![s@[i as int]]);
            assert(out@ =~= old(out)@ + s@.take(i + 1));
        }
        i = i + 1;
    }
    proof {
        assert(s@.take(n as int) =~= s@);
    }
}

fn append_render(out: &mut Vec<char>, text: &str, stamp: &str)
    ensures
        final(out)@ == old(out)@ + spec_render(text@, stamp@),
{
    append_str_chars(out, text);
    let n = text.unicode_len();
    let mut j: usize = n;
    proof {
        assert(out@ =~= old(out)@ + text@ + spaces(0));
    }
    while j < 50
        invariant
            n <= j,
            j <= 50 || j == n,
            n == text@.len(),
            out@ == old(out)@ + text@ + spaces((j - n) as nat),
        decreases 50 - j,
    {
        out.push(' ');
        proof {
            assert(spaces((j + 1 - n) as nat) == spaces((j - n) as nat) + seq![' ']);
            assert(out@ =~= old(out)@ + text@ + spaces((j + 1 - n) as nat));
        }
        j = j + 1;
    }
    proof {
        assert(out@ =~= old(out)@ + spec_padded(text@));
    }
    out.push(' ');
    out.push('[');
    append_str_chars(out, stamp);
    out.push(']');
    proof {
        assert(out@ =~= old(out)@ + spec_render(text@, stamp@));
    }
}

/// Renders one task with the given, already formatted, time stamp: the text
/// padded to the minimum column width, then the stamp in brackets.
pub fn render_task(task: &Task, stamp: &str) -> (r: String)
    ensures
        r@ == spec_render(task@.text, stamp@),
{
    let mut out: Vec<char> = Vec::new();
    append_render(&mut out, task.text.as_str(), stamp);
    proof {
        assert(out@ =~= spec_render(task@.text, stamp@));
    }
    string_from_chars(&out)
}

/// Renders the numbered listing of a task list, one line per task, each with
/// its 1-based position and its given time stamp.
pub fn render_listing(tasks: &Vec<Task>, stamps: &Vec<String>) -> (r: String)
    requires
        stamps@.len() == tasks@.len(),
    ensures
        r@ == spec_listing(task_views(tasks@), stamp_views(stamps@)),
{
    let ghost tv = task_views(tasks@);
    let ghost sv = stamp_views(stamps@);
    let mut out: Vec<char> = Vec::new();
    let mut i: usize = 0;
    proof {
        assert(out@ =~= Seq::<char>::empty());
    }
    while i < tasks.len()
        invariant
            i <= tasks.len(),
            tv == task_views(tasks@),
            sv == stamp_views(stamps@),
            sv.len() == tv.len(),
            out@ + spec_listing_from(tv, sv, i as nat) == spec_listing(tv, sv),
        decreases tasks.len() - i,
    {
        let ghost out0 = out@;
        let mut dg = u64_digits((i + 1) as u64);
        out.append(&mut dg);
        out.push(':');
        out.push(' ');
        append_render(&mut out, tasks[i].text.as_str(), stamps[i].as_str());
        out.push('\n');
        proof {
            assert(tv[i as int].text == tasks@[i as int].text@);
            assert(sv[i as int] == stamps@[i as int]@);
            assert(out@ =~= out0 + spec_digits((i + 1) as nat) + seq![':', ' '] + spec_render(
                tv[i as int].text,
                sv[i as int],
            ) + seq!['\n']);
            assert(spec_listing_from(tv, sv, i as nat) == spec_digits((i + 1) as nat) + seq![
                ':',
                ' ',
            ] + spec_render(tv[i as int].text, sv[i as int]) + seq!['\n'] + spec_listing_from(
                tv,
                sv,
                (i + 1) as nat,
            ));
            assert(out@ + spec_listing_from(tv, sv, (i + 1) as nat) =~= spec_listing(tv, sv));
        }
        i = i + 1;
    }
    proof {
        assert(spec_listing_from(tv, sv, i as nat) =~= Seq::<char>::empty());
        assert(out@ =~= spec_listing(tv, sv));
    }
    string_from_chars(&out)
}

/// Lists the tasks a snapshot holds: the empty notice for an empty list,
/// else one numbered line per task in order, each carrying some time stamp
/// for its instant. The snapshot is only read, never changed.
pub fn list_tasks(content: &str) -> (r: Result<String, JournalError>)
    ensures
        spec_tasks_of(content@) is None ==> (r matches Err(e) && e == JournalError::Decode),
        spec_tasks_of(content@) matches Some(ts) ==> (ts.len() == 0 ==> (r matches Ok(out)
            && out@ == empty_notice())),
        spec_tasks_of(content@) matches Some(ts) ==> (ts.len() > 0 ==> (r matches Ok(out)
            && (exists|stamps: Seq<Seq<char>>|
            stamps.len() == ts.len() && out@ == spec_listing(ts, stamps)))),
{
    let ts = match collect_tasks(content) {
        Ok(ts) => ts,
        Err(e) => {
            return Err(e);
        },
    };
    if ts.len() == 0 {
        return Ok(String::from_str("Task list is empty!"));
    }
    let mut stamps: Vec<String> = Vec::new();
    let mut i: usize = 0;
    while i < ts.len()
        invariant
            i <= ts.len(),
            stamps@.len() == i,
        decreases ts.len() - i,
    {
        let stamp = match local_stamp(ts[i].created_at) {
            Some(s) => s,
            None => String::new(),
        };
        stamps.push(stamp);
        i = i + 1;
    }
    let out = render_listing(&ts, &stamps);
    proof {
        assert(stamp_views(stamps@).len() == task_views(ts@).len() && out@ == spec_listing(
            task_views(ts@),
            stamp_views(stamps@),
        ));
    }
    Ok(out)
}

/// The storage snapshot after a run of adds, one task at a time, starting
/// from a fresh zero-length snapshot: each step decodes the snapshot so far
/// and writes back the list with its task appended.
pub open spec fn contents_after_adds(ts: Seq<TaskView>) -> Seq<char>
    decreases ts.len(),
{
    if ts.len() == 0 {
        Seq::empty()
    } else {
        match spec_tasks_of(contents_after_adds(ts.drop_last())) {
            Some(us) => spec_encode(us.push(ts.last())),
            None => contents_after_adds(ts.drop_last()),
        }
    }
}

/// Adding any number of tasks, one at a time, to an initially empty storage
/// snapshot yields a snapshot that holds exactly those tasks, in insertion
/// order: the listing then shows them numbered from one in that order.
pub proof fn lemma_add_monotonicity(ts: Seq<TaskView>)
    requires
        tasks_wf(ts),
    ensures
        spec_tasks_of(contents_after_adds(ts)) == Some(ts),
    decreases ts.len(),
{
    if ts.len() == 0 {
        assert(ts =~= Seq::<TaskView>::empty());
    } else {
        assert(tasks_wf(ts.drop_last())) by {
            assert(forall|i: int|
                0 <= i < ts.len() - 1 ==> #[trigger] ts.drop_last()[i] == ts[i]);
        }
        lemma_add_monotonicity(ts.drop_last());
        assert(ts.drop_last().push(ts.last()) =~= ts);
        lemma_round_trip(ts);
    }
}

} // verus!
