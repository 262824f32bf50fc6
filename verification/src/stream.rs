//! The wire format: a header that opens a JSON array once, then one line for
//! each snapshot, each line one more element of the array and never the last.

use vstd::prelude::*;
use crate::collect::views;
use crate::decimal::{decimal, push_decimal};
use crate::segment::{Align, StatusLine, StatusLineView};

verus! {

/// What opens the stream: the protocol version and the bracket that opens the
/// array.
pub const HEADER: &'static str = "{\"version\": 1}[";

/// The character that stands for the hexadecimal digit `d`, in lower case.
pub open spec fn hex_char(d: nat) -> char
    recommends
        d < 16,
{
    if d == 0 {
        '0'
    } else if d == 1 {
        '1'
    } else if d == 2 {
        '2'
    } else if d == 3 {
        '3'
    } else if d == 4 {
        '4'
    } else if d == 5 {
        '5'
    } else if d == 6 {
        '6'
    } else if d == 7 {
        '7'
    } else if d == 8 {
        '8'
    } else if d == 9 {
        '9'
    } else if d == 10 {
        'a'
    } else if d == 11 {
        'b'
    } else if d == 12 {
        'c'
    } else if d == 13 {
        'd'
    } else if d == 14 {
        'e'
    } else {
        'f'
    }
}

/// What stands for the character `c` inside a JSON string: the quotation mark
/// and the reverse solidus behind a reverse solidus, a control character as
/// its short escape or, where it has none, as `\u00` and two hexadecimal
/// digits, and every other character as itself.
pub open spec fn escape(c: char) -> Seq<char> {
    if c == '"' {
        seq!['\\', '"']
    } else if c == '\\' {
        seq!['\\', '\\']
    } else if c == '\u{8}' {
        seq!['\\', 'b']
    } else if c == '\t' {
        seq!['\\', 't']
    } else if c == '\n' {
        seq!['\\', 'n']
    } else if c == '\u{c}' {
        seq!['\\', 'f']
    } else if c == '\r' {
        seq!['\\', 'r']
    } else if (c as u32) < 0x20 {
        seq!['\\', 'u', '0', '0', hex_char((c as u32 / 16) as nat), hex_char((c as u32 % 16) as nat)]
    } else {
        seq![c]
    }
}

/// The characters of `text`, each as it stands inside a JSON string.
pub open spec fn escaped(text: Seq<char>) -> Seq<char>
    decreases text.len(),
{
    if text.len() == 0 {
        seq![]
    } else {
        escaped(text.drop_last()) + escape(text.last())
    }
}

/// `text` as a JSON string: its characters escaped, between quotation marks.
pub open spec fn json_string(text: Seq<char>) -> Seq<char> {
    seq!['"'] + escaped(text) + seq!['"']
}

/// The name of an alignment on the wire.
pub open spec fn align_name(align: Align) -> Seq<char> {
    match align {
        Align::Left => "left"@,
        Align::Right => "right"@,
        Align::Center => "center"@,
    }
}

/// The member of a JSON object that holds the reserved width, where one is
/// set.
pub open spec fn min_width_member(min_width: Option<u16>) -> Seq<char> {
    match min_width {
        Some(width) => ",\"min_width\":"@ + decimal(width as nat),
        None => seq![],
    }
}

/// The member of a JSON object that holds the alignment, where one is set.
pub open spec fn align_member(align: Option<Align>) -> Seq<char> {
    match align {
        Some(side) => ",\"align\":"@ + json_string(align_name(side)),
        None => seq![],
    }
}

/// A segment as a JSON object: its text and its colour, then the reserved
/// width and the alignment, each only where it is set.
pub open spec fn json_segment(segment: StatusLineView) -> Seq<char> {
    "{\"full_text\":"@ + json_string(segment.full_text) + ",\"color\":"@ + json_string(
        segment.color,
    ) + min_width_member(segment.min_width) + align_member(segment.align) + "}"@
}

/// The JSON objects of `segments` with a comma between each two.
pub open spec fn json_segments(segments: Seq<StatusLineView>) -> Seq<char>
    decreases segments.len(),
{
    if segments.len() == 0 {
        seq![]
    } else if segments.len() == 1 {
        json_segment(segments[0])
    } else {
        json_segments(segments.drop_last()) + ","@ + json_segment(segments.last())
    }
}

/// A snapshot as a JSON array.
pub open spec fn json_array(segments: Seq<StatusLineView>) -> Seq<char> {
    "["@ + json_segments(segments) + "]"@
}

/// The line of a snapshot: its JSON array, a comma and a line feed.
pub open spec fn line(segments: Seq<StatusLineView>) -> Seq<char> {
    json_array(segments) + ",\n"@
}

/// `serde_json::Error`, what serde_json gives back where it fails. It is
/// never looked into.
#[verifier::external_type_specification]
#[verifier::external_body]
pub struct ExJsonError(serde_json::Error);

/// `serde_json::to_string` on a string slice. It writes a quotation mark, the
/// bytes of the slice with those below `0x20`, the quotation mark and the
/// reverse solidus escaped, and a quotation mark, into a byte vector; writing
/// to a byte vector does not fail, and a string slice gives the serializer no
/// other ground to fail.
#[verifier::external_body]
fn json_quote(text: &str) -> (quoted: Result<String, serde_json::Error>)
    ensures
        quoted is Ok,
        quoted matches Ok(q) ==> q@ == json_string(text@),
{
    serde_json::to_string(text)
}

/// Appends `text` as a JSON string to `out`.
pub fn push_json_string(out: &mut String, text: &str)
    ensures
        final(out)@ == old(out)@ + json_string(text@),
{
    match json_quote(text) {
        Ok(quoted) => {
            out.append(quoted.as_str());
        },
        // Never taken: a string slice is always quoted.
        Err(_) => {},
    }
}

/// Appends a segment as a JSON object to `out`.
pub fn push_json_segment(out: &mut String, segment: &StatusLine)
    ensures
        final(out)@ == old(out)@ + json_segment(segment@),
{
    out.append("{\"full_text\":");
    push_json_string(out, segment.full_text.as_str());
    out.append(",\"color\":");
    push_json_string(out, segment.color.as_str());
    match segment.min_width {
        Some(width) => {
            out.append(",\"min_width\":");
            push_decimal(out, width as u128);
        },
        None => {},
    }
    match segment.align {
        Some(Align::Left) => {
            out.append(",\"align\":");
            push_json_string(out, "left");
        },
        Some(Align::Right) => {
            out.append(",\"align\":");
            push_json_string(out, "right");
        },
        Some(Align::Center) => {
            out.append(",\"align\":");
            push_json_string(out, "center");
        },
        None => {},
    }
    out.append("}");
    assert(out@ =~= old(out)@ + json_segment(segment@));
}

/// Writes the line of a snapshot: its segments as a JSON array, then a comma
/// and a line feed.
pub fn render(snapshot: &Vec<StatusLine>) -> (text: String)
    ensures
        text@ == line(views(snapshot@)),
{
    let mut text = String::from_str("[");
    let mut i: usize = 0;
    assert(views(snapshot@).take(0) =~= Seq::<StatusLineView>::empty());
    assert(text@ =~= "["@ + json_segments(views(snapshot@).take(0)));
    while i < snapshot.len()
        invariant
            i <= snapshot.len(),
            text@ == "["@ + json_segments(views(snapshot@).take(i as int)),
        decreases snapshot.len() - i,
    {
        let ghost before = views(snapshot@).take(i as int);
        let ghost after = views(snapshot@).take(i + 1);
        assert(after.drop_last() =~= before);
        assert(after.last() == snapshot@[i as int]@);
        if i > 0 {
            text.append(",");
        }
        push_json_segment(&mut text, &snapshot[i]);
        assert(text@ =~= "["@ + json_segments(after));
        i = i + 1;
    }
    assert(views(snapshot@).take(i as int) =~= views(snapshot@));
    text.append("]");
    text.append(",\n");
    assert(text@ =~= line(views(snapshot@)));
    text
}

} // verus!
