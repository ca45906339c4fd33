//! What becomes of commands that were run under a deadline.

use vstd::prelude::*;

use crate::number;
use crate::number::decimal_of;
use crate::text;
use crate::text::{contains_text, joined, opt_text, texts, trimmed, utf8_lossy};

verus! {

/// Why something failed: what was tried, and what stood in the way.
#[derive(Debug, PartialEq, Eq)]
pub struct Fault {
    pub text: String,
    pub cause: Option<String>,
}

/// A [`Fault`] with its texts as characters.
#[verifier::ext_equal]
pub struct FaultView {
    pub text: Seq<char>,
    pub cause: Option<Seq<char>>,
}

impl View for Fault {
    type V = FaultView;

    open spec fn view(&self) -> FaultView {
        FaultView { text: self.text@, cause: opt_text(self.cause) }
    }
}

/// A fault in one line.
pub open spec fn fault_line(f: FaultView) -> Seq<char> {
    match f.cause {
        Some(c) => f.text + ": "@ + c,
        None => f.text,
    }
}

impl Fault {
    /// The fault in one line.
    pub fn message(&self) -> (r: String)
        ensures
            r@ == fault_line(self@),
    {
        let mut out: String = self.text.clone();
        if let Some(c) = &self.cause {
            text::push_text(&mut out, ": ");
            text::push_text(&mut out, c.as_str());
        }
        out
    }
}

/// What a command that ended left behind.
#[derive(Debug, PartialEq, Eq)]
pub struct Output {
    pub success: bool,
    /// The exit status in words.
    pub status: String,
    pub stdout: Vec<u8>,
    pub stderr: Vec<u8>,
}

/// How a command came out.
#[derive(Debug, PartialEq, Eq)]
pub enum Outcome {
    /// It could not be started, for this reason.
    NotStarted(String),
    /// It was ended at its deadline.
    TimedOut,
    Ended(Output),
}

/// A command as one line.
pub open spec fn command_line(program: Seq<char>, args: Seq<Seq<char>>) -> Seq<char> {
    joined(seq![program] + args, " "@)
}

/// A command as one line.
pub fn describe(program: &str, args: &Vec<String>) -> (r: String)
    ensures
        r@ == command_line(program@, texts(args@)),
{
    let mut parts: Vec<String> = Vec::new();
    parts.push(program.to_owned());
    assert(texts(parts@) =~= seq![program@]);
    let mut rest = args.clone();
    assert(texts(rest@) =~= texts(args@));
    let ghost tail = rest@;
    parts.append(&mut rest);
    assert(texts(parts@) =~= seq![program@] + texts(tail));
    text::join(&parts, " ")
}

/// Why a command that was not started has no output.
pub open spec fn not_started(display: Seq<char>, cause: Seq<char>) -> FaultView {
    FaultView { text: "spawn "@ + display, cause: Some(cause) }
}

/// Why a command that was ended at its deadline has no output.
pub open spec fn timed_out(display: Seq<char>, timeout_ms: u64) -> FaultView {
    FaultView {
        text: display + " timed out after "@ + decimal_of(timeout_ms as nat) + " ms"@,
        cause: None,
    }
}

/// The output of a command that ended, whether or not it succeeded.
pub fn ended(display: &str, timeout_ms: u64, outcome: Outcome) -> (r: Result<Output, Fault>)
    ensures
        match outcome {
            Outcome::NotStarted(cause) => r matches Err(f) && f@ == not_started(
                display@,
                cause@,
            ),
            Outcome::TimedOut => r matches Err(f) && f@ == timed_out(display@, timeout_ms),
            Outcome::Ended(o) => r == Ok::<Output, Fault>(o),
        },
{
    match outcome {
        Outcome::NotStarted(cause) => {
            let mut m: String = "spawn ".to_owned();
            text::push_text(&mut m, display);
            Err(Fault { text: m, cause: Some(cause) })
        },
        Outcome::TimedOut => {
            let mut m: String = display.to_owned();
            text::push_text(&mut m, " timed out after ");
            text::push_text(&mut m, number::decimal(timeout_ms).as_str());
            text::push_text(&mut m, " ms");
            Err(Fault { text: m, cause: None })
        },
        Outcome::Ended(o) => Ok(o),
    }
}

/// What is wrong with bytes that are not UTF-8, in the words of
/// `FromUtf8Error`.
pub uninterp spec fn utf8_fault(bytes: Seq<u8>) -> Seq<char>;

/// `String::from_utf8`: gives the text where the bytes are well-formed UTF-8,
/// and only there. The words of the error are a function of the bytes.
#[verifier::external_body]
pub(crate) fn from_utf8(bytes: Vec<u8>) -> (r: Result<String, String>)
    ensures
        r is Ok <==> vstd::utf8::valid_utf8(bytes@),
        r matches Ok(s) ==> s@ == vstd::utf8::decode_utf8(bytes@),
        r matches Err(m) ==> m@ == utf8_fault(bytes@),
{
    String::from_utf8(bytes).map_err(|e| e.to_string())
}

/// Why the output of a command that ended is not used.
pub open spec fn unusable(display: Seq<char>, o: Output) -> FaultView {
    if !o.success {
        FaultView {
            text: display + " exited with "@ + o.status@ + ": "@ + trimmed(utf8_lossy(o.stderr@)),
            cause: None,
        }
    } else {
        FaultView {
            text: display + ": stdout is not UTF-8"@,
            cause: Some(utf8_fault(o.stdout@)),
        }
    }
}

/// What a command that succeeded wrote, as text.
pub fn checked(display: &str, timeout_ms: u64, outcome: Outcome) -> (r: Result<String, Fault>)
    ensures
        match outcome {
            Outcome::NotStarted(cause) => r matches Err(f) && f@ == not_started(
                display@,
                cause@,
            ),
            Outcome::TimedOut => r matches Err(f) && f@ == timed_out(display@, timeout_ms),
            Outcome::Ended(o) => if o.success && vstd::utf8::valid_utf8(o.stdout@) {
                r matches Ok(s) && s@ == vstd::utf8::decode_utf8(o.stdout@)
            } else {
                r matches Err(f) && f@ == unusable(display@, o)
            },
        },
{
    let o = match ended(display, timeout_ms, outcome) {
        Ok(o) => o,
        Err(f) => {
            return Err(f);
        },
    };
    let mut m: String = display.to_owned();
    if !o.success {
        text::push_text(&mut m, " exited with ");
        text::push_text(&mut m, o.status.as_str());
        text::push_text(&mut m, ": ");
        let stderr = text::from_utf8_lossy(o.stderr.as_slice());
        text::push_text(&mut m, text::trim(stderr.as_str()).as_str());
        return Err(Fault { text: m, cause: None });
    }
    match from_utf8(o.stdout) {
        Ok(s) => Ok(s),
        Err(cause) => {
            text::push_text(&mut m, ": stdout is not UTF-8");
            Err(Fault { text: m, cause: Some(cause) })
        },
    }
}

/// A command that was not started is told of by its line and the cause.
pub proof fn a_command_not_started_is_told_of(display: Seq<char>, cause: Seq<char>)
    ensures
        contains_text(fault_line(not_started(display, cause)), display),
        contains_text(fault_line(not_started(display, cause)), cause),
{
    let spawn = "spawn "@;
    let all = fault_line(not_started(display, cause));
    text::lemma_contains_middle(all, spawn, display, ": "@ + cause);
    text::lemma_contains_middle(all, spawn + display + ": "@, cause, seq![]);
}

/// A command that ran out of time is told of by its line and its deadline.
pub proof fn a_command_out_of_time_is_told_of(display: Seq<char>, ms: u64)
    ensures
        contains_text(fault_line(timed_out(display, ms)), display),
        contains_text(fault_line(timed_out(display, ms)), decimal_of(ms as nat)),
{
    let after = " timed out after "@;
    let d = decimal_of(ms as nat);
    let all = fault_line(timed_out(display, ms));
    text::lemma_contains_middle(all, seq![], display, after + d + " ms"@);
    text::lemma_contains_middle(all, display + after, d, " ms"@);
}

/// A command that failed is told of by its line, its status and what it wrote to
/// its error stream.
pub proof fn a_command_that_failed_is_told_of(display: Seq<char>, o: Output)
    requires
        !o.success,
    ensures
        contains_text(fault_line(unusable(display, o)), display),
        contains_text(fault_line(unusable(display, o)), o.status@),
        contains_text(fault_line(unusable(display, o)), trimmed(utf8_lossy(o.stderr@))),
{
    let status = o.status@;
    let err = trimmed(utf8_lossy(o.stderr@));
    let exited = " exited with "@;
    let all = fault_line(unusable(display, o));
    text::lemma_contains_middle(all, seq![], display, exited + status + ": "@ + err);
    text::lemma_contains_middle(all, display + exited, status, ": "@ + err);
    text::lemma_contains_middle(all, display + exited + status + ": "@, err, seq![]);
}

/// A command as one line is its program and its arguments, blanks between them.
pub proof fn a_command_line_is_its_words(program: Seq<char>, args: Seq<Seq<char>>)
    ensures
        args.len() == 0 ==> command_line(program, args) == program,
        args.len() > 0 ==> command_line(program, args) == program + " "@ + joined(args, " "@),
{
    if args.len() > 0 {
        text::joining_puts_the_separator_between(seq![program], args, " "@);
    } else {
        assert(seq![program] + args =~= seq![program]);
    }
}

} // verus!
