//! The grammar of the lines, as a reader: what a host that takes a line apart
//! character by character finds in it. The reader is ghost code: it is never
//! run, and it is what the lines are proved to parse as.
//!
//! The reader takes strings with the escapes of JSON, numbers without sign,
//! fraction or exponent, objects of one member or more that hold strings or
//! numbers, and arrays of such objects, all without white space. Whatever it
//! takes is JSON; it does not take all that is.

use vstd::prelude::*;
use crate::decimal::{decimal, digit_char};
use crate::segment::{Align, StatusLineView};
use crate::stream::{
    align_member, align_name, escape, escaped, hex_char, json_array, json_segment, json_segments,
    json_string, line, min_width_member,
};

verus! {

/// The value of a hexadecimal digit; none for any other character.
pub open spec fn hex_value(c: char) -> Option<nat> {
    if '0' <= c <= '9' {
        Some((c as u32 - '0' as u32) as nat)
    } else if 'a' <= c <= 'f' {
        Some((c as u32 - 'a' as u32 + 10) as nat)
    } else if 'A' <= c <= 'F' {
        Some((c as u32 - 'A' as u32 + 10) as nat)
    } else {
        None
    }
}

/// Whether `code` is the code of a character.
pub open spec fn is_char_code(code: nat) -> bool {
    code < 0xD800 || 0xE000 <= code <= 0x10FFFF
}

/// Reads an escape, given what follows the reverse solidus: the character it
/// stands for and how many characters it takes. None where no escape stands
/// there.
pub open spec fn read_escape(input: Seq<char>) -> Option<(char, nat)> {
    if input.len() == 0 {
        None
    } else if input[0] == '"' {
        Some(('"', 1))
    } else if input[0] == '\\' {
        Some(('\\', 1))
    } else if input[0] == '/' {
        Some(('/', 1))
    } else if input[0] == 'b' {
        Some(('\u{8}', 1))
    } else if input[0] == 'f' {
        Some(('\u{c}', 1))
    } else if input[0] == 'n' {
        Some(('\n', 1))
    } else if input[0] == 'r' {
        Some(('\r', 1))
    } else if input[0] == 't' {
        Some(('\t', 1))
    } else if input[0] == 'u' && input.len() >= 5 {
        match (hex_value(input[1]), hex_value(input[2]), hex_value(input[3]), hex_value(input[4])) {
            (Some(a), Some(b), Some(c), Some(d)) => {
                let code = a * 4096 + b * 256 + c * 16 + d;
                if is_char_code(code) {
                    Some((code as char, 5))
                } else {
                    None
                }
            },
            _ => None,
        }
    } else {
        None
    }
}

/// Reads a JSON string, given what follows its opening quotation mark: the
/// text it stands for and what follows its closing quotation mark. None where
/// the string does not end, or holds a control character or a reverse solidus
/// that begins no escape.
pub open spec fn read_chars(input: Seq<char>) -> Option<(Seq<char>, Seq<char>)>
    decreases input.len(),
{
    if input.len() == 0 {
        None
    } else if input[0] == '"' {
        Some((seq![], input.skip(1)))
    } else if input[0] == '\\' {
        match read_escape(input.skip(1)) {
            Some((c, used)) => if 1 <= used && 1 + used <= input.len() {
                match read_chars(input.skip(1 + used as int)) {
                    Some((text, rest)) => Some((seq![c] + text, rest)),
                    None => None,
                }
            } else {
                None
            },
            None => None,
        }
    } else if (input[0] as u32) < 0x20 {
        None
    } else {
        match read_chars(input.skip(1)) {
            Some((text, rest)) => Some((seq![input[0]] + text, rest)),
            None => None,
        }
    }
}

/// Reads a JSON string: the text it stands for and what follows it.
pub open spec fn read_string(input: Seq<char>) -> Option<(Seq<char>, Seq<char>)> {
    if input.len() > 0 && input[0] == '"' {
        read_chars(input.skip(1))
    } else {
        None
    }
}

/// The escaped form of a text is that of its first character, then that of
/// the others.
pub proof fn lemma_escaped_front(c: char, text: Seq<char>)
    ensures
        escaped(seq![c] + text) == escape(c) + escaped(text),
    decreases text.len(),
{
    let whole = seq![c] + text;
    if text.len() == 0 {
        assert(whole.drop_last() =~= Seq::<char>::empty());
        assert(escaped(whole.drop_last()) =~= Seq::<char>::empty());
        assert(escaped(whole) =~= escape(c) + escaped(text));
    } else {
        assert(whole.drop_last() =~= seq![c] + text.drop_last());
        lemma_escaped_front(c, text.drop_last());
        assert(escaped(whole) =~= escape(c) + escaped(text));
    }
}

/// A hexadecimal digit has the value that it was written for.
pub proof fn lemma_hex_value(d: nat)
    requires
        d < 16,
    ensures
        hex_value(hex_char(d)) == Some(d),
{
}

/// An escape reads back as the character that it was written for, and a
/// character that needs no escape stands for itself.
pub proof fn lemma_read_escape(c: char, rest: Seq<char>)
    ensures
        escape(c).len() >= 1,
        escape(c) == seq![c] ==> c != '"' && c != '\\' && (c as u32) >= 0x20,
        escape(c) != seq![c] ==> escape(c)[0] == '\\' && read_escape(
            escape(c).skip(1) + rest,
        ) == Some((c, (escape(c).len() - 1) as nat)),
{
    let e = escape(c);
    if e != seq![c] {
        let after = e.skip(1) + rest;
        if c == '"' || c == '\\' || c == '\u{8}' || c == '\t' || c == '\n' || c == '\u{c}' || c
            == '\r' {
            assert(after[0] == e[1]);
        } else {
            assert((c as u32) < 0x20);
            let hi = (c as u32 / 16) as nat;
            let lo = (c as u32 % 16) as nat;
            lemma_hex_value(hi);
            lemma_hex_value(lo);
            lemma_hex_value(0);
            assert(after[0] == 'u');
            assert(after[1] == '0');
            assert(after[2] == '0');
            assert(after[3] == hex_char(hi));
            assert(after[4] == hex_char(lo));
            assert(hi * 16 + lo == c as u32);
            assert(((hi * 16 + lo) as char) == c);
        }
    } else {
        assert(e[0] == c);
    }
}

/// A JSON string reads back as the text that it was written for, whatever
/// follows it.
pub proof fn lemma_read_chars(text: Seq<char>, rest: Seq<char>)
    ensures
        read_chars(escaped(text) + seq!['"'] + rest) == Some((text, rest)),
    decreases text.len(),
{
    let input = escaped(text) + seq!['"'] + rest;
    if text.len() == 0 {
        assert(input.skip(1) =~= rest);
    } else {
        let c = text[0];
        let tail = text.skip(1);
        assert(text =~= seq![c] + tail);
        lemma_escaped_front(c, tail);
        let e = escape(c);
        let after = escaped(tail) + seq!['"'] + rest;
        assert(input =~= e + after);
        lemma_read_escape(c, after);
        lemma_read_chars(tail, rest);
        if e == seq![c] {
            assert(input[0] == c);
            assert(input.skip(1) =~= after);
        } else {
            let used = (e.len() - 1) as nat;
            assert(input[0] == '\\');
            assert(input.skip(1) =~= e.skip(1) + after);
            assert(input.skip(1 + used as int) =~= after);
        }
        assert(seq![c] + tail =~= text);
    }
}

/// A JSON string reads back as the text that it was written for.
pub proof fn lemma_read_string(text: Seq<char>, rest: Seq<char>)
    ensures
        read_string(json_string(text) + rest) == Some((text, rest)),
{
    let input = json_string(text) + rest;
    assert(input.skip(1) =~= escaped(text) + seq!['"'] + rest);
    lemma_read_chars(text, rest);
}

/// The value of a decimal digit; none for any other character.
pub open spec fn digit_value(c: char) -> Option<nat> {
    if '0' <= c <= '9' {
        Some((c as u32 - '0' as u32) as nat)
    } else {
        None
    }
}

/// Whether `input` goes on with something other than a digit, or ends.
pub open spec fn no_digit_ahead(input: Seq<char>) -> bool {
    input.len() == 0 || digit_value(input[0]) is None
}

/// Reads digits as long as they come: the number that they make behind the
/// digits of `value`, and what follows them.
pub open spec fn read_digits(input: Seq<char>, value: nat) -> (nat, Seq<char>)
    decreases input.len(),
{
    if input.len() > 0 && digit_value(input[0]) is Some {
        read_digits(input.skip(1), value * 10 + digit_value(input[0])->0)
    } else {
        (value, input)
    }
}

/// Reads a JSON number without sign, fraction or exponent: the number and
/// what follows it. None where no digit stands first, or a zero stands before
/// another digit.
pub open spec fn read_number(input: Seq<char>) -> Option<(nat, Seq<char>)> {
    if input.len() == 0 || digit_value(input[0]) is None {
        None
    } else if input[0] == '0' && input.len() > 1 && digit_value(input[1]) is Some {
        None
    } else {
        Some(read_digits(input, 0))
    }
}

/// The number that the digits of `value` make with the digits of `n` behind
/// them.
pub open spec fn with_digits(value: nat, n: nat) -> nat
    decreases n,
{
    if n < 10 {
        value * 10 + n
    } else {
        with_digits(value, n / 10) * 10 + n % 10
    }
}

/// The digits of a number behind nothing make that number.
pub proof fn lemma_with_digits(n: nat)
    ensures
        with_digits(0, n) == n,
    decreases n,
{
    if n >= 10 {
        lemma_with_digits(n / 10);
    }
}

/// A digit has the value that it was written for.
pub proof fn lemma_digit_value(d: nat)
    requires
        d < 10,
    ensures
        digit_value(digit_char(d)) == Some(d),
{
}

/// The decimal text of a number begins with a digit, and with a zero only
/// where the number is zero.
pub proof fn lemma_decimal_first(n: nat)
    ensures
        decimal(n).len() >= 1,
        digit_value(decimal(n)[0]) is Some,
        decimal(n)[0] == '0' ==> n == 0,
        n == 0 ==> decimal(n) == seq!['0'],
    decreases n,
{
    if n >= 10 {
        lemma_decimal_first(n / 10);
        assert(decimal(n)[0] == decimal(n / 10)[0]);
    } else {
        lemma_digit_value(n);
    }
}

/// The digits of the decimal text of `n` are read as the digits of `n`.
pub proof fn lemma_read_digits(n: nat, rest: Seq<char>, value: nat)
    ensures
        read_digits(decimal(n) + rest, value) == read_digits(rest, with_digits(value, n)),
    decreases n,
{
    let input = decimal(n) + rest;
    if n < 10 {
        lemma_digit_value(n);
        assert(input[0] == digit_char(n));
        assert(input.skip(1) =~= rest);
    } else {
        let d = n % 10;
        let behind = seq![digit_char(d)] + rest;
        assert(input =~= decimal(n / 10) + behind);
        lemma_read_digits(n / 10, behind, value);
        lemma_digit_value(d);
        assert(behind[0] == digit_char(d));
        assert(behind.skip(1) =~= rest);
    }
}

/// The decimal text of a number reads back as that number, where no digit
/// follows it.
pub proof fn lemma_read_number(n: nat, rest: Seq<char>)
    requires
        no_digit_ahead(rest),
    ensures
        read_number(decimal(n) + rest) == Some((n, rest)),
{
    let input = decimal(n) + rest;
    lemma_decimal_first(n);
    lemma_read_digits(n, rest, 0);
    lemma_with_digits(n);
    assert(input[0] == decimal(n)[0]);
    if input[0] == '0' && input.len() > 1 {
        assert(input[1] == rest[0]);
    }
}

/// What a member of a JSON object holds here: a text or a number.
pub enum Scalar {
    Text(Seq<char>),
    Number(nat),
}

/// A member of a JSON object: its name and what it holds.
pub struct Member {
    pub name: Seq<char>,
    pub value: Scalar,
}

/// A scalar as JSON.
pub open spec fn scalar_text(value: Scalar) -> Seq<char> {
    match value {
        Scalar::Text(text) => json_string(text),
        Scalar::Number(n) => decimal(n),
    }
}

/// A member as JSON: its name as a string, a colon, and what it holds.
pub open spec fn member_text(member: Member) -> Seq<char> {
    json_string(member.name) + seq![':'] + scalar_text(member.value)
}

/// Members as JSON, with a comma between each two.
pub open spec fn members_text(members: Seq<Member>) -> Seq<char>
    decreases members.len(),
{
    if members.len() == 0 {
        seq![]
    } else if members.len() == 1 {
        member_text(members[0])
    } else {
        member_text(members[0]) + seq![','] + members_text(members.skip(1))
    }
}

/// An object as JSON: its members between braces.
pub open spec fn object_text(members: Seq<Member>) -> Seq<char> {
    seq!['{'] + members_text(members) + seq!['}']
}

/// Objects as JSON, with a comma between each two.
pub open spec fn objects_text(objects: Seq<Seq<Member>>) -> Seq<char>
    decreases objects.len(),
{
    if objects.len() == 0 {
        seq![]
    } else if objects.len() == 1 {
        object_text(objects[0])
    } else {
        objects_text(objects.drop_last()) + seq![','] + object_text(objects.last())
    }
}

/// An array of objects as JSON: the objects between brackets.
pub open spec fn array_text(objects: Seq<Seq<Member>>) -> Seq<char> {
    seq!['['] + objects_text(objects) + seq![']']
}

/// Reads a string or a number: what it holds and what follows it.
pub open spec fn read_scalar(input: Seq<char>) -> Option<(Scalar, Seq<char>)> {
    if input.len() > 0 && input[0] == '"' {
        match read_string(input) {
            Some((text, rest)) => Some((Scalar::Text(text), rest)),
            None => None,
        }
    } else {
        match read_number(input) {
            Some((n, rest)) => Some((Scalar::Number(n), rest)),
            None => None,
        }
    }
}

/// Reads a member of an object: a string, a colon, and a string or a number.
pub open spec fn read_member(input: Seq<char>) -> Option<(Member, Seq<char>)> {
    match read_string(input) {
        Some((name, rest)) => if rest.len() > 0 && rest[0] == ':' {
            match read_scalar(rest.skip(1)) {
                Some((value, rest)) => Some((Member { name, value }, rest)),
                None => None,
            }
        } else {
            None
        },
        None => None,
    }
}

/// Reads members as long as a comma follows: the members and what follows
/// the last.
pub open spec fn read_members(input: Seq<char>) -> Option<(Seq<Member>, Seq<char>)>
    decreases input.len(),
{
    match read_member(input) {
        Some((member, rest)) => if rest.len() > 0 && rest[0] == ',' {
            if rest.len() <= input.len() {
                match read_members(rest.skip(1)) {
                    Some((members, rest)) => Some((seq![member] + members, rest)),
                    None => None,
                }
            } else {
                None
            }
        } else {
            Some((seq![member], rest))
        },
        None => None,
    }
}

/// Reads an object with at least one member: a brace, members, a brace.
pub open spec fn read_object(input: Seq<char>) -> Option<(Seq<Member>, Seq<char>)> {
    if input.len() > 0 && input[0] == '{' {
        match read_members(input.skip(1)) {
            Some((members, rest)) => if rest.len() > 0 && rest[0] == '}' {
                Some((members, rest.skip(1)))
            } else {
                None
            },
            None => None,
        }
    } else {
        None
    }
}

/// Reads objects as long as a comma follows: the objects and what follows
/// the last.
pub open spec fn read_objects(input: Seq<char>) -> Option<(Seq<Seq<Member>>, Seq<char>)>
    decreases input.len(),
{
    match read_object(input) {
        Some((object, rest)) => if rest.len() > 0 && rest[0] == ',' {
            if rest.len() <= input.len() {
                match read_objects(rest.skip(1)) {
                    Some((objects, rest)) => Some((seq![object] + objects, rest)),
                    None => None,
                }
            } else {
                None
            }
        } else {
            Some((seq![object], rest))
        },
        None => None,
    }
}

/// Reads an array of objects: a bracket, then a bracket at once or objects
/// and a bracket.
pub open spec fn read_array(input: Seq<char>) -> Option<(Seq<Seq<Member>>, Seq<char>)> {
    if input.len() > 1 && input[0] == '[' {
        if input[1] == ']' {
            Some((seq![], input.skip(2)))
        } else {
            match read_objects(input.skip(1)) {
                Some((objects, rest)) => if rest.len() > 0 && rest[0] == ']' {
                    Some((objects, rest.skip(1)))
                } else {
                    None
                },
                None => None,
            }
        }
    } else {
        None
    }
}

/// Whether `text` is, from its first to its last character, a JSON array of
/// the objects `objects`.
pub open spec fn parses_as(text: Seq<char>, objects: Seq<Seq<Member>>) -> bool {
    read_array(text) == Some((objects, Seq::<char>::empty()))
}

/// A member reads back as it was written, where a comma or a brace follows.
pub proof fn lemma_read_member(member: Member, rest: Seq<char>)
    requires
        rest.len() > 0,
        rest[0] == ',' || rest[0] == '}',
    ensures
        read_member(member_text(member) + rest) == Some((member, rest)),
{
    let input = member_text(member) + rest;
    let value = scalar_text(member.value);
    let behind = seq![':'] + value + rest;
    assert(input =~= json_string(member.name) + behind);
    lemma_read_string(member.name, behind);
    assert(behind.skip(1) =~= value + rest);
    match member.value {
        Scalar::Text(text) => {
            lemma_read_string(text, rest);
            assert((value + rest)[0] == '"');
        },
        Scalar::Number(n) => {
            lemma_read_number(n, rest);
            lemma_decimal_first(n);
            assert((value + rest)[0] == decimal(n)[0]);
        },
    }
}

/// Members read back as they were written, where a brace follows.
pub proof fn lemma_read_members(members: Seq<Member>, rest: Seq<char>)
    requires
        members.len() >= 1,
        rest.len() > 0,
        rest[0] == '}',
    ensures
        read_members(members_text(members) + rest) == Some((members, rest)),
    decreases members.len(),
{
    let input = members_text(members) + rest;
    if members.len() == 1 {
        lemma_read_member(members[0], rest);
        assert(seq![members[0]] =~= members);
    } else {
        let others = members.skip(1);
        let behind = seq![','] + members_text(others) + rest;
        assert(input =~= member_text(members[0]) + behind);
        lemma_read_member(members[0], behind);
        assert(behind.skip(1) =~= members_text(others) + rest);
        lemma_read_members(others, rest);
        assert(seq![members[0]] + others =~= members);
    }
}

/// An object with at least one member reads back as it was written.
pub proof fn lemma_read_object(members: Seq<Member>, rest: Seq<char>)
    requires
        members.len() >= 1,
    ensures
        read_object(object_text(members) + rest) == Some((members, rest)),
{
    let input = object_text(members) + rest;
    let behind = seq!['}'] + rest;
    assert(input.skip(1) =~= members_text(members) + behind);
    lemma_read_members(members, behind);
    assert(behind.skip(1) =~= rest);
}

/// Objects as JSON are the first, then the others behind a comma.
pub proof fn lemma_objects_front(first: Seq<Member>, others: Seq<Seq<Member>>)
    requires
        others.len() >= 1,
    ensures
        objects_text(seq![first] + others) == object_text(first) + seq![','] + objects_text(
            others,
        ),
    decreases others.len(),
{
    let all = seq![first] + others;
    assert(all.last() == others.last());
    if others.len() == 1 {
        assert(all.drop_last() =~= seq![first]);
        assert(objects_text(all.drop_last()) == object_text(first));
    } else {
        assert(all.drop_last() =~= seq![first] + others.drop_last());
        lemma_objects_front(first, others.drop_last());
        assert(objects_text(all) =~= object_text(first) + seq![','] + objects_text(others));
    }
}

/// Objects, each with at least one member, read back as they were written,
/// where a bracket follows.
pub proof fn lemma_read_objects(objects: Seq<Seq<Member>>, rest: Seq<char>)
    requires
        objects.len() >= 1,
        forall|i: int| 0 <= i < objects.len() ==> (#[trigger] objects[i]).len() >= 1,
        rest.len() > 0,
        rest[0] == ']',
    ensures
        read_objects(objects_text(objects) + rest) == Some((objects, rest)),
    decreases objects.len(),
{
    let input = objects_text(objects) + rest;
    if objects.len() == 1 {
        lemma_read_object(objects[0], rest);
        assert(seq![objects[0]] =~= objects);
    } else {
        let others = objects.skip(1);
        assert(objects =~= seq![objects[0]] + others);
        lemma_objects_front(objects[0], others);
        let behind = seq![','] + objects_text(others) + rest;
        assert(input =~= object_text(objects[0]) + behind);
        lemma_read_object(objects[0], behind);
        assert(behind.skip(1) =~= objects_text(others) + rest);
        assert forall|i: int| 0 <= i < others.len() implies (#[trigger] others[i]).len() >= 1 by {
            assert(others[i] == objects[i + 1]);
        }
        lemma_read_objects(others, rest);
    }
}

/// An array of objects, each with at least one member, reads back as it was
/// written.
pub proof fn lemma_read_array(objects: Seq<Seq<Member>>)
    requires
        forall|i: int| 0 <= i < objects.len() ==> (#[trigger] objects[i]).len() >= 1,
    ensures
        parses_as(array_text(objects), objects),
{
    let input = array_text(objects);
    if objects.len() == 0 {
        assert(input =~= seq!['[', ']']);
        assert(input.skip(2) =~= Seq::<char>::empty());
        assert(objects =~= Seq::<Seq<Member>>::empty());
    } else {
        let behind = seq![']'];
        assert(input.skip(1) =~= objects_text(objects) + behind);
        lemma_read_objects(objects, behind);
        assert(behind.skip(1) =~= Seq::<char>::empty());
        lemma_objects_begin(objects);
        assert(input[1] == objects_text(objects)[0]);
    }
}

/// Objects as JSON begin with a brace.
pub proof fn lemma_objects_begin(objects: Seq<Seq<Member>>)
    requires
        objects.len() >= 1,
    ensures
        objects_text(objects).len() >= 1,
        objects_text(objects)[0] == '{',
    decreases objects.len(),
{
    if objects.len() > 1 {
        lemma_objects_begin(objects.drop_last());
    }
}


/// The members that hold the layout hints of a segment: the reserved width
/// and the alignment, each only where it is set.
pub open spec fn hint_members(min_width: Option<u16>, align: Option<Align>) -> Seq<Member> {
    (match min_width {
        Some(width) => seq![Member { name: "min_width"@, value: Scalar::Number(width as nat) }],
        None => seq![],
    }) + (match align {
        Some(side) => seq![Member { name: "align"@, value: Scalar::Text(align_name(side)) }],
        None => seq![],
    })
}

/// The members of the JSON object of a segment: its text and its colour, then
/// its layout hints.
pub open spec fn members_of(segment: StatusLineView) -> Seq<Member> {
    seq![
        Member { name: "full_text"@, value: Scalar::Text(segment.full_text) },
        Member { name: "color"@, value: Scalar::Text(segment.color) },
    ] + hint_members(segment.min_width, segment.align)
}

/// The objects of the JSON array of a snapshot.
pub open spec fn objects_of(segments: Seq<StatusLineView>) -> Seq<Seq<Member>> {
    segments.map_values(|segment: StatusLineView| members_of(segment))
}

/// A text of characters that need no escape is its own escaped form.
pub proof fn lemma_escaped_plain(text: Seq<char>)
    requires
        forall|i: int| 0 <= i < text.len() ==> escape(#[trigger] text[i]) == seq![text[i]],
    ensures
        escaped(text) == text,
    decreases text.len(),
{
    if text.len() > 0 {
        lemma_escaped_plain(text.drop_last());
        assert(escaped(text) =~= text);
    }
}

/// The names of the members, as they stand in a line, are JSON strings.
pub proof fn lemma_member_names()
    ensures
        "{\"full_text\":"@ == seq!['{'] + json_string("full_text"@) + seq![':'],
        ",\"color\":"@ == seq![','] + json_string("color"@) + seq![':'],
        ",\"min_width\":"@ == seq![','] + json_string("min_width"@) + seq![':'],
        ",\"align\":"@ == seq![','] + json_string("align"@) + seq![':'],
{
    reveal_strlit("full_text");
    reveal_strlit("color");
    reveal_strlit("min_width");
    reveal_strlit("align");
    reveal_strlit("{\"full_text\":");
    reveal_strlit(",\"color\":");
    reveal_strlit(",\"min_width\":");
    reveal_strlit(",\"align\":");
    lemma_escaped_plain("full_text"@);
    lemma_escaped_plain("color"@);
    lemma_escaped_plain("min_width"@);
    lemma_escaped_plain("align"@);
    assert("{\"full_text\":"@ =~= seq!['{'] + json_string("full_text"@) + seq![':']);
    assert(",\"color\":"@ =~= seq![','] + json_string("color"@) + seq![':']);
    assert(",\"min_width\":"@ =~= seq![','] + json_string("min_width"@) + seq![':']);
    assert(",\"align\":"@ =~= seq![','] + json_string("align"@) + seq![':']);
}

/// Members as JSON are the first, then the others behind a comma.
pub proof fn lemma_members_front(first: Member, others: Seq<Member>)
    ensures
        members_text(seq![first] + others) == member_text(first) + more_members_text(others),
{
    let all = seq![first] + others;
    assert(all[0] == first);
    if others.len() > 0 {
        assert(all.skip(1) =~= others);
    } else {
        assert(member_text(first) + Seq::<char>::empty() =~= member_text(first));
    }
}

/// Members behind a comma, or nothing where there are none.
pub open spec fn more_members_text(members: Seq<Member>) -> Seq<char> {
    if members.len() == 0 {
        seq![]
    } else {
        seq![','] + members_text(members)
    }
}

/// The layout hints of a segment, as they stand in a line, are members behind
/// a comma each.
pub proof fn lemma_hints_are_members(min_width: Option<u16>, align: Option<Align>)
    ensures
        more_members_text(hint_members(min_width, align)) == min_width_member(min_width)
            + align_member(align),
{
    lemma_member_names();
    let hints = hint_members(min_width, align);
    let none = Seq::<Member>::empty();
    match (min_width, align) {
        (Some(width), Some(side)) => {
            let first = Member { name: "min_width"@, value: Scalar::Number(width as nat) };
            let second = Member { name: "align"@, value: Scalar::Text(align_name(side)) };
            assert(hints =~= seq![first] + seq![second]);
            assert(seq![second] =~= seq![second] + none);
            lemma_members_front(first, seq![second]);
            lemma_members_front(second, none);
            assert(members_text(seq![second]) =~= member_text(second));
            assert(min_width_member(min_width) =~= seq![','] + member_text(first));
            assert(align_member(align) =~= seq![','] + member_text(second));
            assert(more_members_text(hints) =~= min_width_member(min_width) + align_member(align));
        },
        (Some(width), None) => {
            let first = Member { name: "min_width"@, value: Scalar::Number(width as nat) };
            assert(hints =~= seq![first] + none);
            lemma_members_front(first, none);
            assert(min_width_member(min_width) =~= seq![','] + member_text(first));
            assert(more_members_text(hints) =~= min_width_member(min_width) + align_member(align));
        },
        (None, Some(side)) => {
            let second = Member { name: "align"@, value: Scalar::Text(align_name(side)) };
            assert(hints =~= seq![second] + none);
            lemma_members_front(second, none);
            assert(align_member(align) =~= seq![','] + member_text(second));
            assert(more_members_text(hints) =~= min_width_member(min_width) + align_member(align));
        },
        (None, None) => {
            assert(hints =~= none);
            assert(more_members_text(hints) =~= min_width_member(min_width) + align_member(align));
        },
    }
}

/// Two members and the hints behind them, as they stand in a line between
/// their braces, are the object of these members.
proof fn lemma_object_of_two(
    first: Member,
    second: Member,
    hints: Seq<Member>,
    first_name: Seq<char>,
    second_name: Seq<char>,
)
    requires
        first_name == seq!['{'] + json_string(first.name) + seq![':'],
        second_name == seq![','] + json_string(second.name) + seq![':'],
    ensures
        object_text(seq![first, second] + hints) == first_name + scalar_text(first.value)
            + second_name + scalar_text(second.value) + more_members_text(hints) + seq!['}'],
{
    let all = seq![first, second] + hints;
    let behind = seq![second] + hints;
    assert(all =~= seq![first] + behind);
    lemma_members_front(first, behind);
    lemma_members_front(second, hints);
    let one = member_text(first);
    let two = member_text(second);
    let more = more_members_text(hints);
    assert(members_text(behind) == two + more);
    assert(members_text(all) == one + (seq![','] + (two + more)));
    assert(one == json_string(first.name) + seq![':'] + scalar_text(first.value));
    assert(two == json_string(second.name) + seq![':'] + scalar_text(second.value));
    assert(seq!['{'] + one =~= first_name + scalar_text(first.value));
    assert(seq![','] + two =~= second_name + scalar_text(second.value));
    assert(seq!['{'] + (one + (seq![','] + (two + more))) =~= (seq!['{'] + one) + (seq![',']
        + two) + more);
    assert(object_text(all) =~= (seq!['{'] + one) + (seq![','] + two) + more + seq!['}']);
}

/// The JSON object of a segment, as it stands in a line, is the object of its
/// members.
pub proof fn lemma_segment_is_object(segment: StatusLineView)
    ensures
        json_segment(segment) == object_text(members_of(segment)),
        members_of(segment).len() >= 2,
        members_of(segment)[0] == (Member {
            name: "full_text"@,
            value: Scalar::Text(segment.full_text),
        }),
        members_of(segment)[1] == (Member { name: "color"@, value: Scalar::Text(segment.color) }),
{
    lemma_member_names();
    lemma_hints_are_members(segment.min_width, segment.align);
    let text = Member { name: "full_text"@, value: Scalar::Text(segment.full_text) };
    let color = Member { name: "color"@, value: Scalar::Text(segment.color) };
    let hints = hint_members(segment.min_width, segment.align);
    lemma_object_of_two(text, color, hints, "{\"full_text\":"@, ",\"color\":"@);
    lemma_closing_brace();
    assert(json_segment(segment) =~= object_text(members_of(segment)));
}

/// The brace that closes an object.
proof fn lemma_closing_brace()
    ensures
        "}"@ == seq!['}'],
{
    reveal_strlit("}");
    assert("}"@ =~= seq!['}']);
}

/// The JSON objects of a snapshot, as they stand in a line, are the objects of
/// its segments.
pub proof fn lemma_segments_are_objects(segments: Seq<StatusLineView>)
    ensures
        json_segments(segments) == objects_text(objects_of(segments)),
    decreases segments.len(),
{
    reveal_strlit(",");
    let objects = objects_of(segments);
    if segments.len() == 1 {
        lemma_segment_is_object(segments[0]);
    } else if segments.len() > 1 {
        assert(objects.drop_last() =~= objects_of(segments.drop_last()));
        lemma_segments_are_objects(segments.drop_last());
        lemma_segment_is_object(segments.last());
        assert(json_segments(segments) =~= objects_text(objects));
    }
}

/// What a line reads as: the members of the object of each segment.
///
/// Every line ends with a comma and a line feed. Without them it parses, from
/// its first character to its last, as a JSON array of objects, one object for
/// each segment of the snapshot and in its order. The first member of each
/// object is `full_text` and holds the text of the segment; the second is
/// `color` and holds its colour.
pub proof fn lemma_line_parses(segments: Seq<StatusLineView>)
    ensures
        ({
            let text = line(segments);
            let objects = objects_of(segments);
            &&& text.len() >= 4
            &&& text[text.len() - 2] == ','
            &&& text[text.len() - 1] == '\n'
            &&& text.subrange(0, text.len() - 2) == json_array(segments)
            &&& parses_as(json_array(segments), objects)
            &&& objects.len() == segments.len()
            &&& forall|i: int|
                0 <= i < segments.len() ==> {
                    let object = #[trigger] objects[i];
                    &&& object.len() >= 2
                    &&& object[0] == (Member {
                        name: "full_text"@,
                        value: Scalar::Text(segments[i].full_text),
                    })
                    &&& object[1] == (Member {
                        name: "color"@,
                        value: Scalar::Text(segments[i].color),
                    })
                }
        }),
{
    reveal_strlit("[");
    reveal_strlit("]");
    reveal_strlit(",\n");
    let text = line(segments);
    let objects = objects_of(segments);
    lemma_segments_are_objects(segments);
    assert forall|i: int| 0 <= i < objects.len() implies (#[trigger] objects[i]).len() >= 1 by {
        lemma_segment_is_object(segments[i]);
    }
    lemma_read_array(objects);
    assert(json_array(segments) =~= array_text(objects));
    assert(text.subrange(0, text.len() - 2) =~= json_array(segments));
    assert forall|i: int| 0 <= i < segments.len() implies {
        let object = #[trigger] objects[i];
        &&& object.len() >= 2
        &&& object[0] == (Member {
            name: "full_text"@,
            value: Scalar::Text(segments[i].full_text),
        })
        &&& object[1] == (Member { name: "color"@, value: Scalar::Text(segments[i].color) })
    } by {
        lemma_segment_is_object(segments[i]);
    }
}


} // verus!
