//! The tool that runs commands: what it is given, and how their output is
//! shown.
use crate::json::Json;
use crate::json::JsonView;
use crate::memory::index;
use crate::provider::body;
use crate::secure;
use crate::text;
use crate::tools::arguments;
use crate::tools::arguments::{Shape, Slot};
use vstd::prelude::*;
use vstd::string::*;
use vstd::utf8::*;

verus! {

/// The arguments of `bash`.
pub open spec fn bash_slots() -> Seq<arguments::SlotView> {
    seq![arguments::needed("command"@, Shape::Text)]
}

/// What `bash` is given.
pub fn parse_bash_arguments(arguments: &Json) -> (r: Result<String, String>)
    ensures
        match arguments::fault(arguments@, "BashArguments"@, bash_slots()) {
            Some(fault) => r is Err && r->Err_0@ == arguments::refusal("bash"@, fault),
            None => r is Ok && Some(r->Ok_0@) == arguments::text_of(
                arguments::given(arguments@, bash_slots(), 0),
            ),
        },
{
    let slots: Vec<Slot> = vec![arguments::needed_slot("command", Shape::Text)];
    assert(text::views(slots@) =~= bash_slots());
    match arguments::check_arguments(arguments, "bash", "BashArguments", &slots) {
        Ok(_) => {},
        Err(message) => {
            return Err(message);
        },
    }
    assert(arguments::suits(arguments::given(arguments@, bash_slots(), 0), slots@[0]@));
    Ok(arguments::given_text(arguments, &slots, 0))
}

/// The text of a command's output: as it is where it is UTF-8, else with
/// replacement characters.
pub open spec fn decoded(bytes: Seq<u8>) -> Seq<char> {
    if valid_utf8(bytes) {
        decode_utf8(bytes)
    } else {
        body::lossy_text(bytes)
    }
}

/// The text of a command's output.
pub fn decode_shell_output(bytes: &[u8]) -> (r: String)
    ensures
        r@ == decoded(bytes@),
{
    let copied = index::copy_bytes(bytes, 0, bytes.len());
    assert(copied@ =~= bytes@);
    match secure::utf8_text(copied) {
        Ok(shown) => {
            proof {
                encode_utf8_decode_utf8(shown@);
            }
            shown
        },
        Err(_) => body::lossy(bytes),
    }
}

/// Output that is UTF-8 is shown unchanged.
pub proof fn law_utf8_output_is_unchanged(shown: Seq<char>)
    ensures
        decoded(encode_utf8(shown)) == shown,
{
    encode_utf8_valid_utf8(shown);
    encode_utf8_decode_utf8(shown);
}

/// A number in decimal, with a minus sign where it is negative.
pub open spec fn signed_decimal(n: int) -> Seq<char> {
    if n < 0 {
        "-"@ + text::decimal((-n) as nat)
    } else {
        text::decimal(n as nat)
    }
}

/// How a command that ended is shown.
pub open spec fn shell_report(code: Option<i32>, stdout: Seq<char>, stderr: Seq<char>) -> Seq<char> {
    "exit_code: "@ + (match code {
        Some(code) => signed_decimal(code as int),
        None => "terminated by signal"@,
    }) + "\nstdout:\n"@ + stdout + "\nstderr:\n"@ + stderr
}

fn signed_decimal_of(n: i32) -> (r: String)
    ensures
        r@ == signed_decimal(n as int),
{
    if n < 0 {
        let magnitude: u64 = (-(n as i64)) as u64;
        let digits = text::decimal_of(magnitude);
        text::concat("-", digits.as_str())
    } else {
        text::decimal_of(n as u64)
    }
}

/// How a command that ended is shown.
pub fn report_shell(code: Option<i32>, stdout: &[u8], stderr: &[u8]) -> (r: String)
    ensures
        r@ == shell_report(code, decoded(stdout@), decoded(stderr@)),
{
    let shown = match code {
        Some(code) => signed_decimal_of(code),
        None => "terminated by signal".to_owned(),
    };
    let out = decode_shell_output(stdout);
    let err = decode_shell_output(stderr);
    let mut r = text::concat("exit_code: ", shown.as_str());
    r.append("\nstdout:\n");
    r.append(out.as_str());
    r.append("\nstderr:\n");
    r.append(err.as_str());
    r
}

/// What is said of a command that took too long.
pub fn shell_timeout_message(seconds: u64) -> (r: String)
    ensures
        r@ == "shell command exceeded its "@ + text::decimal(seconds as nat) + " second timeout"@,
{
    let shown = text::decimal_of(seconds);
    let mut r = text::concat("shell command exceeded its ", shown.as_str());
    r.append(" second timeout");
    r
}

/// What is shown of a command has all that it wrote, its output before its
/// errors, each behind its heading: the parts are told apart by where they
/// stand, and nothing is left out or added.
pub proof fn law_report_has_all_output(
    code: Option<i32>,
    stdout: Seq<char>,
    stderr: Seq<char>,
    other_stdout: Seq<char>,
    other_stderr: Seq<char>,
)
    ensures
        ({
            let shown = shell_report(code, stdout, stderr);
            let head = shown.len() - stdout.len() - stderr.len() - "\nstderr:\n"@.len();
            &&& head >= 0
            &&& shown.skip(shown.len() - stderr.len()) == stderr
            &&& shown.subrange(head, head + stdout.len()) == stdout
            &&& shown.take(head) == shell_report(code, Seq::empty(), Seq::empty()).take(head)
        }),
        stdout.len() == other_stdout.len() && shell_report(code, stdout, stderr) == shell_report(
            code,
            other_stdout,
            other_stderr,
        ) ==> stdout == other_stdout && stderr == other_stderr,
{
    let shown = shell_report(code, stdout, stderr);
    let middle = "\nstderr:\n"@;
    let head = shown.len() - stdout.len() - stderr.len() - middle.len();
    assert(shown.skip(shown.len() - stderr.len()) =~= stderr);
    assert(shown.subrange(head, head + stdout.len()) =~= stdout);
    let bare = shell_report(code, Seq::empty(), Seq::empty());
    assert(shown.take(head) =~= bare.take(head));
    let other = shell_report(code, other_stdout, other_stderr);
    if stdout.len() == other_stdout.len() && shown == other {
        assert(other.skip(other.len() - other_stderr.len()) =~= other_stderr);
        assert(other_stderr.len() == stderr.len());
        assert(other.subrange(head, head + stdout.len()) =~= other_stdout);
    }
}

/// The number with which a command ended is shown in decimal.
pub proof fn law_exit_code_is_shown(code: i32, stdout: Seq<char>, stderr: Seq<char>)
    ensures
        ({
            let shown = shell_report(Some(code), stdout, stderr);
            let magnitude = if code < 0 {
                (-(code as int)) as nat
            } else {
                code as nat
            };
            let number = text::decimal(magnitude);
            let start: int = if code < 0 {
                12
            } else {
                11
            };
            &&& shown.take(11) == "exit_code: "@
            &&& code < 0 ==> shown[11] == '-'
            &&& shown.subrange(start, start + number.len()) == number
            &&& shown[start + number.len()] == '\n'
        }),
{
    reveal_strlit("exit_code: ");
    reveal_strlit("-");
    reveal_strlit("\nstdout:\n");
    let shown = shell_report(Some(code), stdout, stderr);
    let magnitude = if code < 0 {
        (-(code as int)) as nat
    } else {
        code as nat
    };
    let number = text::decimal(magnitude);
    let start: int = if code < 0 {
        12
    } else {
        11
    };
    assert(shown.take(11) =~= "exit_code: "@);
    assert(shown.subrange(start, start + number.len()) =~= number);
}

/// What `bash` is given is its command.
pub proof fn law_bash_command_is_taken(fields: Seq<(Seq<char>, JsonView)>, command: Seq<char>)
    requires
        arguments::named_once(fields),
        JsonView::Object(fields).get("command"@) == Some(JsonView::Text(command)),
    ensures
        arguments::fault(JsonView::Object(fields), "BashArguments"@, bash_slots()) is None,
        arguments::text_of(arguments::given(JsonView::Object(fields), bash_slots(), 0)) == Some(
            command,
        ),
{
    let given = JsonView::Object(fields);
    let slots = bash_slots();
    assert forall|k: int| 0 <= k < slots.len() implies arguments::is_given(
        given,
        #[trigger] slots[k],
    ) by {}
    arguments::lemma_named_arguments(fields, "BashArguments"@, slots);
    assert(arguments::given(given, slots, 0) == given.get(slots[0].name));
}

} // verus!
