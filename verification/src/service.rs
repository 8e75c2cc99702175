use crate::clanker::mc::{ascii_chars, ascii_string, string_from_utf8};
use crate::numeral::{decimal_digits, lemma_decimal_digits, write_decimal};
use crate::texts;
use vstd::prelude::*;
use vstd::string::*;
use vstd::utf8::*;

verus! {

/// `fastrand::usize(0..bound)`: some index below `bound`, by chance.
#[verifier::external_body]
fn random_below(bound: usize) -> (index: usize)
    requires
        bound > 0,
    ensures
        index < bound,
{
    fastrand::usize(0..bound)
}

/// The number of characters that names are made of.
pub const CHARSET_LEN: usize = 62;

/// The length of a generated name.
pub const GENERATED_NAME_LEN: usize = 12;

/// The characters that names are made of: `a` to `z`, `A` to `Z`, `0` to
/// `9`, in this order.
pub open spec fn charset(index: int) -> u8 {
    if index < 26 {
        (0x61 + index) as u8
    } else if index < 52 {
        (0x41 + index - 26) as u8
    } else {
        (0x30 + index - 52) as u8
    }
}

/// That `c` is one of the characters that names are made of.
pub open spec fn in_charset(c: char) -> bool {
    ('a' <= c <= 'z') || ('A' <= c <= 'Z') || ('0' <= c <= '9')
}

/// The character of the charset at `index`, as its ASCII byte.
pub fn charset_byte(index: usize) -> (byte: u8)
    requires
        index < CHARSET_LEN,
    ensures
        byte == charset(index as int),
        byte < 128,
        in_charset(byte as char),
{
    if index < 26 {
        0x61 + index as u8
    } else if index < 52 {
        0x41 + (index - 26) as u8
    } else {
        0x30 + (index - 52) as u8
    }
}

/// `n` in base ten, as characters.
pub open spec fn decimal_chars(n: nat) -> Seq<char> {
    ascii_chars(decimal_digits(n))
}

/// The name that comes of a listed name and a number: the number behind the
/// name.
pub fn numbered_name(base: &String, id: u64) -> (name: String)
    ensures
        name@ == base@ + decimal_chars(id as nat),
{
    let mut digits = Vec::new();
    write_decimal(&mut digits, id);
    proof {
        lemma_decimal_digits(id as nat);
        assert(digits@ =~= decimal_digits(id as nat));
        assert forall|i: int| 0 <= i < digits@.len() implies digits@[i] < 128 by {
            assert(0x30 <= digits@[i] <= 0x39);
        }
    }
    let suffix = ascii_string(digits);
    let mut name = base.clone();
    name.append(suffix.as_str());
    name
}

pub enum ClankerNameType {
    /// Every name is made up by chance.
    Generate,
    /// Every name is one of these, with a number behind it.
    Ready(Vec<String>),
}

/// Where the names of a fleet come from, and the number of the next name
/// that is taken from a list.
pub struct ClankerName {
    pub id: u64,
    pub names: ClankerNameType,
}

impl ClankerName {
    /// That a name can be drawn: a list of names is not empty.
    pub open spec fn wf(&self) -> bool {
        self.names matches ClankerNameType::Ready(list) ==> list@.len() > 0
    }

    /// A source of names that has handed out none: from `names` where there
    /// is a list, else by chance.
    pub fn new(names: Option<Vec<String>>) -> (source: ClankerName)
        ensures
            source.id == 0,
            match names {
                Some(list) => source.names == ClankerNameType::Ready(list),
                None => source.names == ClankerNameType::Generate,
            },
    {
        match names {
            Some(list) => ClankerName { id: 0, names: ClankerNameType::Ready(list) },
            None => ClankerName { id: 0, names: ClankerNameType::Generate },
        }
    }

    /// Draws a name. By chance it is twelve characters of the charset. From
    /// a list it is one of the listed names with the counter behind it, and
    /// the counter then moves on by one; after its largest value it starts
    /// again at zero.
    pub fn name(&mut self) -> (name: String)
        requires
            old(self).wf(),
        ensures
            final(self).names == old(self).names,
            match old(self).names {
                ClankerNameType::Generate => {
                    &&& final(self).id == old(self).id
                    &&& name@.len() == GENERATED_NAME_LEN
                    &&& forall|i: int| 0 <= i < name@.len() ==> in_charset(#[trigger] name@[i])
                },
                ClankerNameType::Ready(list) => {
                    &&& final(self).id == if old(self).id == u64::MAX {
                        0
                    } else {
                        old(self).id + 1
                    }
                    &&& exists|k: int|
                        0 <= k < list@.len() && name@ == #[trigger] list@[k]@ + decimal_chars(
                            old(self).id as nat,
                        )
                },
            },
    {
        match &self.names {
            ClankerNameType::Generate => {
                let mut bytes: Vec<u8> = Vec::new();

                while bytes.len() < GENERATED_NAME_LEN
                    invariant
                        bytes@.len() <= GENERATED_NAME_LEN,
                        forall|i: int|
                            0 <= i < bytes@.len() ==> bytes@[i] < 128 && in_charset(
                                #[trigger] bytes@[i] as char,
                            ),
                    decreases GENERATED_NAME_LEN - bytes@.len(),
                {
                    bytes.push(charset_byte(random_below(CHARSET_LEN)));
                }

                ascii_string(bytes)
            },
            ClankerNameType::Ready(list) => {
                let id: u64 = self.id;
                let name = numbered_name(&list[random_below(list.len())], id);
                self.id = id.wrapping_add(1);
                name
            },
        }
    }
}

/// The messages of a fleet.
pub struct ClankerMessages(pub Vec<String>);

impl ClankerMessages {
    /// One of the messages, by chance.
    pub fn message(&self) -> (message: String)
        requires
            self.0@.len() > 0,
        ensures
            exists|k: int| 0 <= k < self.0@.len() && message@ == (#[trigger] self.0@[k])@,
    {
        self.0[random_below(self.0.len())].clone()
    }
}

// ---------------------------------------------------------------------------
// Lists, one entry a line
// ---------------------------------------------------------------------------

/// That `c` is white space as Unicode defines it.
pub uninterp spec fn is_white_space(c: char) -> bool;

/// `char::is_whitespace` of std: whether `c` has the property White_Space.
#[verifier::external_body]
fn char_is_whitespace(c: char) -> (white: bool)
    ensures
        white == is_white_space(c),
{
    c.is_whitespace()
}

/// The characters of `text`, in order.
fn chars_of(text: &str) -> (chars: Vec<char>)
    ensures
        chars@ == text@,
{
    let mut chars: Vec<char> = Vec::new();
    for c in it: text.chars()
        invariant
            chars@ == it.history(),
            it.seq() == text@,
    {
        chars.push(c);
    }
    chars
}

/// The UTF-8 form of a text grows at its end as the text does.
proof fn lemma_encode_utf8_push(chars: Seq<char>, c: char)
    ensures
        encode_utf8(chars.push(c)) == encode_utf8(chars) + encode_scalar(c as u32),
    decreases chars.len(),
{
    let longer = chars.push(c);
    if chars.len() == 0 {
        assert(longer[0] == c);
        assert(longer.drop_first() =~= Seq::<char>::empty());
        assert(encode_utf8(Seq::<char>::empty()) =~= Seq::<u8>::empty());
        assert(encode_utf8(chars) =~= Seq::<u8>::empty());
        assert(encode_utf8(longer) =~= encode_scalar(c as u32));
        assert(encode_utf8(chars) + encode_scalar(c as u32) =~= encode_scalar(c as u32));
    } else {
        assert(longer[0] == chars[0]);
        assert(longer.drop_first() =~= chars.drop_first().push(c));
        lemma_encode_utf8_push(chars.drop_first(), c);
        assert(encode_utf8(longer) =~= encode_utf8(chars) + encode_scalar(c as u32));
    }
}

/// Appends the UTF-8 form of `c`.
fn push_utf8(destination: &mut Vec<u8>, c: char)
    ensures
        final(destination)@ == old(destination)@ + encode_scalar(c as u32),
{
    let scalar = c as u32;
    proof {
        char_is_scalar(c);
    }
    if scalar <= 0x7F {
        destination.push((scalar & 0x7F) as u8);
    } else if scalar <= 0x7FF {
        destination.push(0xC0 | ((scalar >> 6) & 0x1F) as u8);
        destination.push(0x80 | (scalar & 0x3F) as u8);
    } else if scalar <= 0xFFFF {
        destination.push(0xE0 | ((scalar >> 12) & 0x0F) as u8);
        destination.push(0x80 | ((scalar >> 6) & 0x3F) as u8);
        destination.push(0x80 | (scalar & 0x3F) as u8);
    } else {
        destination.push(0xF0 | ((scalar >> 18) & 0x7) as u8);
        destination.push(0x80 | ((scalar >> 12) & 0x3F) as u8);
        destination.push(0x80 | ((scalar >> 6) & 0x3F) as u8);
        destination.push(0x80 | (scalar & 0x3F) as u8);
    }
    assert(destination@ =~= old(destination)@ + encode_scalar(scalar));
}

/// The string of the characters `chars`.
fn string_of(chars: &[char]) -> (s: String)
    ensures
        s@ == chars@,
{
    let mut bytes: Vec<u8> = Vec::new();
    let mut i: usize = 0;
    assert(chars@.take(0) =~= Seq::<char>::empty());
    while i < chars.len()
        invariant
            i <= chars@.len(),
            bytes@ == encode_utf8(chars@.take(i as int)),
        decreases chars.len() - i,
    {
        proof {
            lemma_encode_utf8_push(chars@.take(i as int), chars@[i as int]);
            assert(chars@.take(i + 1) =~= chars@.take(i as int).push(chars@[i as int]));
        }
        push_utf8(&mut bytes, chars[i]);
        i = i + 1;
    }
    proof {
        assert(chars@.take(i as int) =~= chars@);
        encode_utf8_valid_utf8(chars@);
        encode_utf8_decode_utf8(chars@);
    }
    match string_from_utf8(bytes) {
        Ok(s) => s,
        Err(_) => vstd::pervasive::unreached(),
    }
}

/// `line` without the white space at its start and at its end.
pub open spec fn trimmed(line: Seq<char>) -> Seq<char>
    decreases line.len(),
{
    if line.len() == 0 {
        line
    } else if is_white_space(line[0]) {
        trimmed(line.skip(1))
    } else if is_white_space(line.last()) {
        trimmed(line.drop_last())
    } else {
        line
    }
}

/// What a line adds to a list: itself trimmed, or nothing where that is
/// empty.
pub open spec fn entry_of(line: Seq<char>) -> Seq<Seq<char>> {
    if trimmed(line).len() == 0 {
        Seq::empty()
    } else {
        seq![trimmed(line)]
    }
}

/// The entries of `text` from index `i` on, where the line that holds `i`
/// began at index `start`.
pub open spec fn entries_from(text: Seq<char>, start: int, i: int) -> Seq<Seq<char>>
    decreases text.len() - i,
{
    if i >= text.len() {
        entry_of(text.subrange(start, text.len() as int))
    } else if text[i] == '\n' {
        entry_of(text.subrange(start, i)) + entries_from(text, i + 1, i + 1)
    } else {
        entries_from(text, start, i + 1)
    }
}

/// The entries of a list that holds one entry a line: the lines of `text`,
/// each without the white space around it, the empty ones left out.
pub open spec fn list_entries(text: Seq<char>) -> Seq<Seq<char>> {
    entries_from(text, 0, 0)
}

/// Finds what is left of `chars[start..end]` without the white space around
/// it: all that is cut off is white space, and what is left neither starts
/// nor ends with white space.
pub fn trim_range(chars: &[char], start: usize, end: usize) -> (range: (usize, usize))
    requires
        start <= end <= chars@.len(),
    ensures
        start <= range.0 <= range.1 <= end,
        chars@.subrange(range.0 as int, range.1 as int) == trimmed(
            chars@.subrange(start as int, end as int),
        ),
        forall|i: int| start <= i < range.0 ==> is_white_space(#[trigger] chars@[i]),
        forall|i: int| range.1 <= i < end ==> is_white_space(#[trigger] chars@[i]),
        range.0 < range.1 ==> !is_white_space(chars@[range.0 as int]) && !is_white_space(
            chars@[range.1 - 1],
        ),
{
    let mut from = start;
    let mut to = end;
    while from < to && char_is_whitespace(chars[from])
        invariant
            start <= from <= to == end <= chars@.len(),
            trimmed(chars@.subrange(from as int, to as int)) == trimmed(
                chars@.subrange(start as int, end as int),
            ),
            forall|i: int| start <= i < from ==> is_white_space(#[trigger] chars@[i]),
        decreases to - from,
    {
        proof {
            let line = chars@.subrange(from as int, to as int);
            assert(line[0] == chars@[from as int]);
            assert(line.skip(1) =~= chars@.subrange(from + 1, to as int));
        }
        from = from + 1;
    }
    while from < to && char_is_whitespace(chars[to - 1])
        invariant
            start <= from <= to <= end <= chars@.len(),
            from < to ==> !is_white_space(chars@[from as int]),
            trimmed(chars@.subrange(from as int, to as int)) == trimmed(
                chars@.subrange(start as int, end as int),
            ),
            forall|i: int| start <= i < from ==> is_white_space(#[trigger] chars@[i]),
            forall|i: int| to <= i < end ==> is_white_space(#[trigger] chars@[i]),
        decreases to - from,
    {
        proof {
            let line = chars@.subrange(from as int, to as int);
            assert(line[0] == chars@[from as int]);
            assert(line.last() == chars@[to - 1]);
            assert(line.drop_last() =~= chars@.subrange(from as int, to - 1));
        }
        to = to - 1;
    }
    proof {
        let line = chars@.subrange(from as int, to as int);
        if from < to {
            assert(line[0] == chars@[from as int]);
            assert(line.last() == chars@[to - 1]);
        }
    }
    (from, to)
}

/// Reads a list that holds one entry a line.
pub fn read_list(text: &str) -> (entries: Vec<String>)
    ensures
        texts(entries@) == list_entries(text@),
{
    let chars = chars_of(text);
    let mut entries: Vec<String> = Vec::new();
    let mut start: usize = 0;
    let mut i: usize = 0;

    assert(texts(entries@) =~= Seq::<Seq<char>>::empty());
    while i < chars.len()
        invariant
            start <= i <= chars@.len(),
            chars@ == text@,
            texts(entries@) + entries_from(chars@, start as int, i as int) == list_entries(text@),
        decreases chars.len() - i,
    {
        if chars[i] == '\n' {
            let ghost before = texts(entries@);
            let (from, to) = trim_range(chars.as_slice(), start, i);
            if from < to {
                let entry = string_of(vstd::slice::slice_subrange(chars.as_slice(), from, to));
                entries.push(entry);
            }
            proof {
                let entry = entry_of(chars@.subrange(start as int, i as int));
                let later = entries_from(chars@, i + 1, i + 1);
                assert(texts(entries@) =~= before + entry);
                assert(before + (entry + later) =~= (before + entry) + later);
            }
            start = i + 1;
        }
        i = i + 1;
    }
    let ghost before = texts(entries@);
    let (from, to) = trim_range(chars.as_slice(), start, chars.len());
    if from < to {
        let entry = string_of(vstd::slice::slice_subrange(chars.as_slice(), from, to));
        entries.push(entry);
    }
    proof {
        assert(texts(entries@) =~= before + entry_of(
            chars@.subrange(start as int, chars@.len() as int),
        ));
    }
    entries
}

} // verus!
