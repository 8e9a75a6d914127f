//! The link to Voicemeeter: when to try again, and what the answers of its
//! remote interface mean.

use crate::single::Single;
use crate::text::{
    chars_of, find, find_of, is_space, lemma_find, lemma_find_unique, string_of, trim, trim_end,
    trim_end_of, trim_of,
};
use crate::time::{Duration, Instant};
use crate::utf16::{before_zero, decode, from_wide, length_to_zero};
use vstd::arithmetic::power2::{lemma2_to64, lemma_pow2_pos, lemma_pow2_unfold, pow2};
use vstd::prelude::*;
use vstd::slice::slice_subrange;
use vstd::utf8::{decode_utf8, valid_utf8};

verus! {

// ---------------------------------------------------------------------------
// Backing off
// ---------------------------------------------------------------------------

/// Exponential backoff for reconnect attempts. Pure, so it can be tested
/// without a Voicemeeter to talk to.
#[derive(Debug)]
pub struct Backoff {
    min: Duration,
    max: Duration,
    delay: Duration,
    next_at: Option<Instant>,
}

/// A backoff in numbers: the waits in nanoseconds, and when the next attempt
/// is due.
pub struct BackoffState {
    pub min: nat,
    pub max: nat,
    pub delay: nat,
    pub next_at: Option<nat>,
}

impl BackoffState {
    /// Whether an attempt is due.
    pub open spec fn is_due(self, now: nat) -> bool {
        match self.next_at {
            Some(at) => now >= at,
            None => true,
        }
    }

    /// The state after an attempt: the next one is pushed out, and the wait
    /// after it doubled up to the cap.
    pub open spec fn attempted(self, now: nat) -> BackoffState {
        BackoffState {
            delay: if 2 * self.delay < self.max {
                2 * self.delay
            } else {
                self.max
            },
            next_at: Some(now + self.delay),
            ..self
        }
    }

    /// Whether the wait and the next attempt can be told in the clock's
    /// numbers.
    pub open spec fn can_attempt(self, now: nat) -> bool {
        now + self.delay <= u128::MAX && 2 * self.delay <= u128::MAX
    }

    /// The state after an attempt was asked for, due or not.
    pub open spec fn tried(self, now: nat) -> BackoffState {
        if self.is_due(now) {
            self.attempted(now)
        } else {
            self
        }
    }

    /// The state after everything went well.
    pub open spec fn eager(self) -> BackoffState {
        BackoffState { delay: self.min, next_at: None, ..self }
    }
}

impl View for Backoff {
    type V = BackoffState;

    closed spec fn view(&self) -> BackoffState {
        BackoffState {
            min: self.min.nanos as nat,
            max: self.max.nanos as nat,
            delay: self.delay.nanos as nat,
            next_at: match self.next_at {
                Some(at) => Some(at.nanos as nat),
                None => None,
            },
        }
    }
}

impl Backoff {
    pub fn new(min: Duration, max: Duration) -> (r: Backoff)
        ensures
            r@.min == min.nanos,
            r@.max == max.nanos,
            r@ == r@.eager(),
    {
        Backoff { min, max, delay: min, next_at: None }
    }

    /// True when an attempt is due at `now`; records the attempt and pushes
    /// the next one out, doubling the wait up to the cap.
    pub fn attempt(&mut self, now: Instant) -> (due: bool)
        requires
            old(self)@.is_due(now.nanos as nat) ==> old(self)@.can_attempt(now.nanos as nat),
        ensures
            due == old(self)@.is_due(now.nanos as nat),
            final(self)@ == old(self)@.tried(now.nanos as nat),
    {
        if let Some(at) = self.next_at {
            if now.nanos < at.nanos {
                return false;
            }
        }
        self.next_at = Some(now.plus(self.delay));
        let doubled: u128 = self.delay.nanos * 2;
        self.delay = if doubled < self.max.nanos {
            Duration { nanos: doubled }
        } else {
            self.max
        };
        true
    }

    /// Wait before the attempt after the next one, for logging.
    pub fn delay(&self) -> (r: Duration)
        ensures
            r.nanos == self@.delay,
    {
        self.delay
    }

    /// When the next attempt is due, if one has to wait.
    pub fn next_at(&self) -> (r: Option<Instant>)
        ensures
            match r {
                Some(at) => self@.next_at == Some(at.nanos as nat),
                None => self@.next_at is None,
            },
    {
        self.next_at
    }

    /// Back to eager retries once things are healthy again.
    pub fn reset(&mut self)
        ensures
            final(self)@ == old(self)@.eager(),
    {
        self.delay = self.min;
        self.next_at = None;
    }
}

/// What a backoff can be told.
pub enum BackoffCall {
    Attempt { now: nat },
    Reset,
}

impl BackoffState {
    pub open spec fn called(self, call: BackoffCall) -> BackoffState {
        match call {
            BackoffCall::Attempt { now } => self.tried(now),
            BackoffCall::Reset => self.eager(),
        }
    }
}

/// The state after any calls, in order.
pub open spec fn after_calls(b: BackoffState, calls: Seq<BackoffCall>) -> BackoffState
    decreases calls.len(),
{
    if calls.len() == 0 {
        b
    } else {
        after_calls(b, calls.drop_last()).called(calls.last())
    }
}

/// An attempt and a reset keep the wait between the shortest and the longest
/// one.
pub proof fn law_each_call_keeps_the_delay_in_range(b: BackoffState, now: nat)
    requires
        b.min <= b.delay <= b.max,
    ensures
        b.min <= b.attempted(now).delay <= b.max,
        b.min <= b.tried(now).delay <= b.max,
        b.min <= b.eager().delay <= b.max,
        b.attempted(now).min == b.min && b.attempted(now).max == b.max,
        b.eager().min == b.min && b.eager().max == b.max,
{
}

/// Whatever a new backoff has been through, its wait lies between the
/// shortest and the longest one. A further attempt doubles it up to the cap
/// where the attempt is due, and leaves it as it is where it is not.
pub proof fn law_the_delay_stays_in_range(b: BackoffState, calls: Seq<BackoffCall>, now: nat)
    requires
        b.min <= b.max,
        b == b.eager(),
    ensures
        ({
            let state = after_calls(b, calls);
            let next = state.called(BackoffCall::Attempt { now });
            &&& state.min == b.min && state.max == b.max
            &&& b.min <= state.delay <= b.max
            &&& state.is_due(now) ==> next.delay == if 2 * state.delay < b.max {
                2 * state.delay
            } else {
                b.max
            }
            &&& !state.is_due(now) ==> next == state
        }),
    decreases calls.len(),
{
    if calls.len() > 0 {
        law_the_delay_stays_in_range(b, calls.drop_last(), now);
    }
}

/// The state after `n` attempts, each made as soon as it is due.
pub open spec fn after_attempts(b: BackoffState, now: nat, n: nat) -> BackoffState
    decreases n,
{
    if n == 0 {
        b
    } else {
        let before = after_attempts(b, now, (n - 1) as nat);
        before.attempted(
            match before.next_at {
                Some(at) => at,
                None => now,
            },
        )
    }
}

/// The wait doubles with each attempt, up to the cap.
pub proof fn law_delay_doubles_up_to_the_cap(b: BackoffState, now: nat, n: nat)
    requires
        b.min <= b.max,
        b == b.eager(),
    ensures
        after_attempts(b, now, n).delay == if b.min * pow2(n) < b.max {
            b.min * pow2(n)
        } else {
            b.max
        },
        after_attempts(b, now, n).min == b.min,
        after_attempts(b, now, n).max == b.max,
    decreases n,
{
    if n == 0 {
        assert(pow2(0) == 1) by {
            lemma2_to64();
        }
        assert(b.min * 1 == b.min) by (nonlinear_arith);
    } else {
        law_delay_doubles_up_to_the_cap(b, now, (n - 1) as nat);
        lemma_pow2_unfold(n);
        lemma_pow2_pos((n - 1) as nat);
        let (m, p) = (b.min, pow2((n - 1) as nat));
        assert(m * (2 * p) == 2 * (m * p)) by (nonlinear_arith);
    }
}

/// No attempt is due before the wait is over, and one is from then on.
pub proof fn law_attempts_wait_for_the_delay(b: BackoffState, now: nat, later: nat)
    ensures
        b.attempted(now).is_due(later) <==> later >= now + b.delay,
{
}

/// After a reset an attempt is due at any time.
pub proof fn law_a_reset_makes_retries_eager(b: BackoffState, now: nat)
    ensures
        b.eager().is_due(now),
        b.eager().delay == b.min,
{
}

// ---------------------------------------------------------------------------
// Answers
// ---------------------------------------------------------------------------

/// Outcome of a cache pump.
#[derive(Clone, Copy, PartialEq, Eq, Debug, Structural)]
pub enum Link {
    Up,
    NoServer,
    Stale,
}

/// The link that the answer to a cache pump stands for.
pub open spec fn link_meant(rc: int) -> Link {
    if rc >= 0 {
        Link::Up
    } else if rc == -2 {
        Link::NoServer
    } else {
        Link::Stale
    }
}

/// The edition that the answer to a type query stands for.
pub open spec fn edition_meant(rc: int, kind: int) -> Option<int> {
    if rc != 0 {
        None
    } else if 1 <= kind <= 3 {
        Some(kind)
    } else if kind == 6 {
        Some(3)
    } else {
        None
    }
}

/// What the answers of the remote interface mean. A session is up while the
/// pump answers 0 or more, whatever is new; only -2 says that Voicemeeter is
/// not running, every other failure that the session went stale. An edition
/// is known only from an answer that went well, and is 1, 2 or 3.
pub proof fn law_answers_mean_what_the_interface_says(rc: int, kind: int)
    ensures
        link_meant(rc) == Link::Up <==> rc >= 0,
        link_meant(rc) == Link::NoServer <==> rc == -2,
        link_meant(rc) == Link::Stale <==> rc < 0 && rc != -2,
        edition_meant(rc, kind) is Some <==> rc == 0 && (kind == 1 || kind == 2 || kind == 3 || kind
            == 6),
        edition_meant(rc, kind) is Some ==> 1 <= edition_meant(rc, kind)->0 <= 3,
        edition_meant(rc, kind) is Some && kind != 6 ==> edition_meant(rc, kind)->0 == kind,
        edition_meant(0, 6) == edition_meant(0, 3),
{
}

/// What the answer to a cache pump means: 0 and above is a live session, -2
/// that Voicemeeter itself isn't running, anything else that the session
/// went stale.
pub fn link_of(rc: i32) -> (r: Link)
    ensures
        r == link_meant(rc as int),
{
    if rc >= 0 {
        Link::Up
    } else if rc == -2 {
        Link::NoServer
    } else {
        Link::Stale
    }
}

/// Whether a login went well: 0 = ok, 1 = ok but Voicemeeter isn't running
/// yet.
pub fn login_succeeded(rc: i32) -> (r: bool)
    ensures
        r == (rc == 0 || rc == 1),
{
    rc == 0 || rc == 1
}

/// A number that was read, where the call went well.
pub fn reading(rc: i32, value: Single) -> (r: Option<Single>)
    ensures
        r == if rc == 0 {
            Some(value)
        } else {
            None
        },
{
    if rc == 0 {
        Some(value)
    } else {
        None
    }
}

/// The edition that the answer to a type query means: 1 = Voicemeeter,
/// 2 = Banana, 3 = Potato; 6 is Potato running as a 64-bit process. `None`
/// while Voicemeeter isn't running, so callers can retry instead of trusting
/// a guess.
pub fn edition_of(rc: i32, kind: i32) -> (r: Option<i32>)
    ensures
        match (r, edition_meant(rc as int, kind as int)) {
            (Some(n), Some(m)) => n == m,
            (None, None) => true,
            _ => false,
        },
        r == if rc != 0 {
            None
        } else if 1 <= kind <= 3 {
            Some(kind)
        } else if kind == 6 {
            Some(3i32)
        } else {
            None
        },
{
    if rc != 0 {
        None
    } else if 1 <= kind && kind <= 3 {
        Some(kind)
    } else if kind == 6 {
        Some(3)
    } else {
        None
    }
}

/// Loudest of a stereo pair.
pub open spec fn loudest(left: Option<Single>, right: Option<Single>) -> Option<Single> {
    match (left, right) {
        (Some(l), Some(r)) => Some(l.larger(r)),
        (Some(l), None) => Some(l.larger(l)),
        (None, _) => None,
    }
}

/// The level of a stereo pair is one of the two and no lower than either. With
/// no right channel it is the left one, and with no left one there is none.
pub proof fn law_the_louder_channel_counts(left: Option<Single>, right: Option<Single>)
    ensures
        loudest(left, right) is Some <==> left is Some,
        left is Some && right is Some ==> loudest(left, right) == left || loudest(left, right)
            == right,
        left is Some && right is Some && !left->0.is_nan() && !right->0.is_nan() ==> {
            let level = loudest(left, right)->0;
            level.rank() >= left->0.rank() && level.rank() >= right->0.rank()
        },
        left is Some && right is None ==> loudest(left, right) == left,
{
}

/// Loudest of a stereo pair, which is what a single meter should show. A
/// missing right channel counts as the left one.
pub fn stereo_level(left: Option<Single>, right: Option<Single>) -> (r: Option<Single>)
    ensures
        r == loudest(left, right),
{
    match left {
        Some(l) => match right {
            Some(r) => Some(l.larger_of(r)),
            None => Some(l.larger_of(l)),
        },
        None => None,
    }
}

// ---------------------------------------------------------------------------
// Labels
// ---------------------------------------------------------------------------

/// The text that bytes stand for, with what is no UTF-8 replaced.
pub uninterp spec fn utf8_lossy(bytes: Seq<u8>) -> Seq<char>;

/// `String::from_utf8_lossy`: the text of the bytes, where they are UTF-8.
/// Where they are not, invalid parts are replaced; how many replacement
/// characters an invalid part becomes is left unsaid.
#[verifier::external_body]
fn lossy(bytes: &[u8]) -> (r: String)
    ensures
        r@ == utf8_lossy(bytes@),
        valid_utf8(bytes@) ==> r@ == decode_utf8(bytes@),
{
    String::from_utf8_lossy(bytes).into_owned()
}

/// The bytes before the first zero.
pub open spec fn bytes_before_zero(b: Seq<u8>) -> Seq<u8>
    decreases b.len(),
{
    if b.len() == 0 || b[0] == 0 {
        Seq::empty()
    } else {
        seq![b[0]] + bytes_before_zero(b.drop_first())
    }
}

/// A label without the white space around it, if anything is left of it.
pub open spec fn label_spec(text: Seq<char>) -> Option<Seq<char>> {
    if trim(text).len() > 0 {
        Some(trim(text))
    } else {
        None
    }
}

/// A label without the white space around it, if anything is left of it.
pub fn label_of_text(text: &str) -> (r: Option<String>)
    ensures
        match r {
            Some(s) => label_spec(text@) == Some(s@),
            None => label_spec(text@) is None,
        },
{
    let chars = chars_of(text);
    let trimmed = trim_of(chars.as_slice());
    if trimmed.len() > 0 {
        Some(string_of(trimmed))
    } else {
        None
    }
}

/// A label as the remote interface writes it into a buffer, up to a zero.
/// `None` where the call failed or the label is blank.
pub fn label_of(rc: i32, buffer: &[u8]) -> (r: Option<String>)
    ensures
        match r {
            Some(s) => rc == 0 && label_spec(utf8_lossy(bytes_before_zero(buffer@))) == Some(s@),
            None => rc != 0 || label_spec(utf8_lossy(bytes_before_zero(buffer@))) is None,
        },
{
    if rc != 0 {
        return None;
    }
    let mut n: usize = 0;
    assert(buffer@.skip(0) == buffer@);
    assert(buffer@.take(0) + bytes_before_zero(buffer@) == bytes_before_zero(buffer@));
    while n < buffer.len() && buffer[n] != 0
        invariant
            n <= buffer@.len(),
            buffer@.take(n as int) + bytes_before_zero(buffer@.skip(n as int))
                == bytes_before_zero(buffer@),
        decreases buffer@.len() - n,
    {
        proof {
            let rest = buffer@.skip(n as int);
            assert(rest.drop_first() == buffer@.skip(n + 1));
            assert(buffer@.take(n + 1) + bytes_before_zero(buffer@.skip(n + 1)) == buffer@.take(
                n as int,
            ) + (seq![rest[0]] + bytes_before_zero(rest.drop_first())));
        }
        n += 1;
    }
    assert(bytes_before_zero(buffer@.skip(n as int)) == Seq::<u8>::empty());
    assert(buffer@.take(n as int) + Seq::<u8>::empty() == buffer@.take(n as int));
    let bytes = slice_subrange(buffer, 0, n);
    assert(bytes@ == buffer@.take(n as int));
    let text = lossy(bytes);
    label_of_text(text.as_str())
}

// ---------------------------------------------------------------------------
// The library file
// ---------------------------------------------------------------------------

/// `s` without its leading double quotes.
pub open spec fn unquoted(s: Seq<char>) -> Seq<char>
    decreases s.len(),
{
    if s.len() > 0 && s[0] == '"' {
        unquoted(s.drop_first())
    } else {
        s
    }
}

/// The program in an uninstall command: up to the closing quote, if any.
pub open spec fn program_of(command: Seq<char>) -> Seq<char> {
    let s = unquoted(trim(command));
    trim_end(s.take(find(s, '"')))
}

/// What stands before the last backslash, where there is one.
pub open spec fn directory_of(path: Seq<char>) -> Option<Seq<char>>
    decreases path.len(),
{
    if path.len() == 0 {
        None
    } else if path.last() == '\\' {
        Some(path.drop_last())
    } else {
        directory_of(path.drop_last())
    }
}

/// Where the remote library should lie, given the uninstall command.
pub open spec fn library_beside(command: Seq<u16>) -> Option<Seq<char>> {
    match directory_of(program_of(decode(before_zero(command)))) {
        Some(dir) => Some(dir + "\\VoicemeeterRemote64.dll"@),
        None => None,
    }
}

/// The library is looked for beside the program: for a program in a directory,
/// quoted or not and with switches after the quote or not, the path is that
/// directory's.
pub proof fn law_the_library_lies_beside_the_program(
    dir: Seq<char>,
    name: Seq<char>,
    rest: Seq<char>,
)
    requires
        !name.contains('\\') && !name.contains('"') && !dir.contains('"'),
        name.len() > 0 && dir.len() > 0,
        !is_space(dir[0]) && !is_space(name.last()),
        rest.len() > 0 ==> !is_space(rest.last()),
    ensures
        directory_of(program_of(dir + seq!['\\'] + name)) == Some(dir),
        directory_of(program_of(seq!['"'] + (dir + seq!['\\'] + name) + seq!['"'] + rest)) == Some(
            dir,
        ),
{
    let path = dir + seq!['\\'] + name;
    assert(path[0] == dir[0]);
    assert(path.last() == name.last());
    assert(!path.contains('"')) by {
        if path.contains('"') {
            let i = choose|i: int| 0 <= i < path.len() && path[i] == '"';
            if i < dir.len() {
                assert(dir[i] == '"');
            } else if i > dir.len() {
                assert(name[i - dir.len() - 1] == '"');
            }
        }
    }
    lemma_directory(dir, name);
    // Without quotes the whole command is the program.
    assert(trim(path) == path);
    assert(path[0] != '"') by {
        assert(path.contains(path[0]));
    }
    assert(unquoted(path) == path);
    lemma_find(path, '"');
    assert(find(path, '"') == path.len());
    assert(path.take(path.len() as int) == path);
    // With quotes it is what they hold.
    let quoted = seq!['"'] + path + seq!['"'] + rest;
    assert(!is_space('"'));
    assert(quoted[0] == '"');
    assert(quoted.last() == if rest.len() > 0 {
        rest.last()
    } else {
        '"'
    });
    assert(trim(quoted) == quoted);
    let inner = path + seq!['"'] + rest;
    assert(quoted.drop_first() == inner);
    assert(inner[0] == path[0]);
    assert(unquoted(inner) == inner);
    assert(unquoted(quoted) == inner);
    lemma_find_unique(inner, '"', path.len() as int);
    assert(inner.take(path.len() as int) == path);
}

proof fn lemma_directory(dir: Seq<char>, name: Seq<char>)
    requires
        !name.contains('\\'),
    ensures
        directory_of(dir + seq!['\\'] + name) == Some(dir),
    decreases name.len(),
{
    let path = dir + seq!['\\'] + name;
    if name.len() == 0 {
        assert(path.last() == '\\');
        assert(path.drop_last() == dir);
    } else {
        assert(path.last() == name.last());
        assert(name.contains(name.last())) by {
            assert(name[name.len() - 1] == name.last());
        }
        let shorter = name.drop_last();
        assert(!shorter.contains('\\')) by {
            if shorter.contains('\\') {
                let i = choose|i: int| 0 <= i < shorter.len() && shorter[i] == '\\';
                assert(name[i] == '\\');
            }
        }
        assert(path.drop_last() == dir + seq!['\\'] + shorter);
        lemma_directory(dir, shorter);
    }
}

fn unquote(s: &[char]) -> (r: &[char])
    ensures
        r@ == unquoted(s@),
{
    let mut i: usize = 0;
    assert(s@.skip(0) == s@);
    while i < s.len() && s[i] == '"'
        invariant
            i <= s@.len(),
            unquoted(s@) == unquoted(s@.skip(i as int)),
        decreases s@.len() - i,
    {
        assert(s@.skip(i as int).drop_first() == s@.skip(i + 1));
        i += 1;
    }
    let r = slice_subrange(s, i, s.len());
    assert(r@ == s@.skip(i as int));
    r
}

fn directory(path: &[char]) -> (r: Option<&[char]>)
    ensures
        match r {
            Some(d) => directory_of(path@) == Some(d@),
            None => directory_of(path@) is None,
        },
{
    let mut n: usize = path.len();
    assert(path@.take(n as int) == path@);
    while n > 0
        invariant
            n <= path@.len(),
            directory_of(path@) == directory_of(path@.take(n as int)),
        decreases n,
    {
        assert(path@.take(n as int).drop_last() == path@.take(n - 1));
        if path[n - 1] == '\\' {
            let d = slice_subrange(path, 0, n - 1);
            assert(d@ == path@.take(n - 1));
            return Some(d);
        }
        n -= 1;
    }
    None
}

/// Where the remote library should lie, given the uninstall command from the
/// registry. It may be wrapped in quotes, optionally with trailing switches.
pub fn library_candidate(command: &[u16]) -> (r: Option<String>)
    ensures
        match r {
            Some(s) => library_beside(command@) == Some(s@),
            None => library_beside(command@) is None,
        },
{
    let n: usize = length_to_zero(command);
    let units = slice_subrange(command, 0, n);
    assert(units@ == command@.take(n as int));
    let raw = from_wide(units);
    let s = unquote(trim_of(raw.as_slice()));
    let cut = slice_subrange(s, 0, find_of(s, '"'));
    assert(cut@ == s@.take(find(s@, '"')));
    let program = trim_end_of(cut);
    match directory(program) {
        Some(dir) => {
            let mut out: String = string_of(dir);
            out.append("\\VoicemeeterRemote64.dll");
            Some(out)
        },
        None => None,
    }
}

/// The library to load: the candidate where it exists, else where every
/// Voicemeeter edition installs by default.
pub fn find_dll_path(candidate: Option<String>, exists: bool) -> (r: String)
    ensures
        r@ == match candidate {
            Some(path) if exists => path@,
            _ => "C:\\Program Files (x86)\\VB\\Voicemeeter\\VoicemeeterRemote64.dll"@,
        },
{
    match candidate {
        Some(path) if exists => path,
        _ => String::from_str(
            "C:\\Program Files (x86)\\VB\\Voicemeeter\\VoicemeeterRemote64.dll",
        ),
    }
}

} // verus!
