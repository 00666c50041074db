//! The text of a journal entry: what is appended to a journal file for one
//! message.

use vstd::prelude::*;
use vstd::string::*;

verus! {

/// The form in which the stamp of an entry is written: the date, the time
/// of day and the milliseconds.
pub open spec fn stamp_form() -> Seq<char> {
    "%F %T%.3f"@
}

/// What `chrono` writes in the form `form` for the instant `secs` seconds
/// and `nanos` nanoseconds after the start of 1970 (UTC). `None` where the
/// instant is outside what `chrono` represents.
pub uninterp spec fn stamp_text(secs: i64, nanos: u32, form: Seq<char>) -> Option<Seq<char>>;

/// Calls `chrono::DateTime::from_timestamp` and, on the instant it gives,
/// `format` with the form given. The two calls stand together because the
/// instant's type is bounded by a trait of `chrono` and cannot be named
/// between them. The claim is that the text is a function of the two
/// numbers and the form. Only the form of a stamp is admitted: `chrono`
/// fails on a form that it cannot read.
#[verifier::external_body]
pub(crate) fn stamp(secs: i64, nanos: u32, form: &str) -> (text: Option<String>)
    requires
        form@ == stamp_form(),
    ensures
        match text {
            Some(t) => stamp_text(secs, nanos, form@) == Some(t@),
            None => stamp_text(secs, nanos, form@) is None,
        },
{
    match chrono::DateTime::from_timestamp(secs, nanos) {
        Some(instant) => Some(instant.format(form).to_string()),
        None => None,
    }
}

/// The message with every line break followed by the mark of a
/// continuation line.
pub open spec fn indented(data: Seq<char>) -> Seq<char>
    decreases data.len(),
{
    if data.len() == 0 {
        Seq::empty()
    } else if data.last() == '\n' {
        indented(data.drop_last()) + seq!['\n', ' ', '-', ' ']
    } else {
        indented(data.drop_last()).push(data.last())
    }
}

/// A stamped entry: the stamp in square brackets, a space and the first
/// line of the message; every further line of the message on a line of
/// its own after ` - `; a line break at the end.
pub open spec fn stamped_entry(stamp: Seq<char>, data: Seq<char>) -> Seq<char> {
    seq!['['] + stamp + seq![']', ' '] + indented(data) + seq!['\n']
}

/// What is appended for a message: the message as it is where `raw` is
/// set, else the stamped entry.
pub open spec fn entry_text(stamp: Seq<char>, data: Seq<char>, raw: bool) -> Seq<char> {
    if raw {
        data
    } else {
        stamped_entry(stamp, data)
    }
}

/// Whether two texts are equal.
pub fn same_text(a: &str, b: &str) -> (same: bool)
    ensures
        same == (a@ == b@),
{
    let n: usize = a.unicode_len();
    if n != b.unicode_len() {
        return false;
    }
    let mut i: usize = 0;
    while i < n
        invariant
            i <= n,
            n == a@.len(),
            n == b@.len(),
            a@.take(i as int) == b@.take(i as int),
        decreases n - i,
    {
        if a.get_char(i) != b.get_char(i) {
            return false;
        }
        proof {
            assert(a@.take(i + 1) =~= a@.take(i as int).push(a@[i as int]));
            assert(b@.take(i + 1) =~= b@.take(i as int).push(b@[i as int]));
        }
        i += 1;
    }
    proof {
        assert(a@.take(n as int) =~= a@);
        assert(b@.take(n as int) =~= b@);
    }
    true
}

/// Whether a message is appended as it is: only where the optional
/// formatting flag is given and reads `false`.
pub fn is_raw(flag: Option<&str>) -> (raw: bool)
    ensures
        raw == (flag matches Some(text) && text@ == "false"@),
{
    match flag {
        Some(text) => same_text(text, "false"),
        None => false,
    }
}

/// The text that is appended for a message, given the stamp of the moment.
pub fn format_entry(stamp: &str, data: &str, raw: bool) -> (text: String)
    ensures
        text@ == entry_text(stamp@, data@, raw),
{
    if raw {
        return data.to_owned();
    }
    let mut text = String::new();
    text.push('[');
    text.append(stamp);
    text.push(']');
    text.push(' ');
    let ghost head = text@;
    for c in it: data.chars()
        invariant
            it.seq() == data@,
            text@ == head + indented(data@.take(it.index() as int)),
    {
        proof {
            assert(data@.take(it.index() + 1).drop_last() =~= data@.take(it.index() as int));
            assert(data@.take(it.index() + 1).last() == c);
        }
        text.push(c);
        if c == '\n' {
            text.push(' ');
            text.push('-');
            text.push(' ');
        }
        proof {
            assert(text@ =~= head + indented(data@.take(it.index() + 1)));
        }
    }
    proof {
        assert(data@.take(data@.len() as int) =~= data@);
    }
    text.push('\n');
    assert(text@ =~= stamped_entry(stamp@, data@));
    text
}

/// The text that is appended for a message at the instant `secs` seconds
/// and `nanos` nanoseconds after the start of 1970. A raw message needs no
/// stamp; for any other, `None` where that is no instant that can be
/// written.
pub fn format_entry_at(secs: i64, nanos: u32, data: &str, raw: bool) -> (text: Option<String>)
    ensures
        raw ==> (text matches Some(t) && t@ == data@),
        !raw ==> match stamp_text(secs, nanos, stamp_form()) {
            Some(at) => (text matches Some(t) && t@ == stamped_entry(at, data@)),
            None => text is None,
        },
{
    if raw {
        return Some(format_entry("", data, true));
    }
    match stamp(secs, nanos, "%F %T%.3f") {
        Some(at) => Some(format_entry(at.as_str(), data, false)),
        None => None,
    }
}

} // verus!
