//! Text primitives over sequences of characters.
//!
//! Every function here is stated over the characters of a string, `Seq<char>`, so that the
//! rest of the library can speak of text as a mathematical sequence.
use vstd::prelude::*;

verus! {

/// `String::push`: appends one character to the end of the string.
pub assume_specification[ String::push ](string: &mut String, ch: char)
    ensures
        final(string)@ == old(string)@.push(ch),
;

// ---------------------------------------------------------------------------------------------
// Models
// ---------------------------------------------------------------------------------------------
/// The characters with the Unicode property `White_Space`.
pub open spec fn white_space(c: char) -> bool {
    let v = c as u32;
    ||| 0x09 <= v <= 0x0d
    ||| v == 0x20
    ||| v == 0x85
    ||| v == 0xa0
    ||| v == 0x1680
    ||| 0x2000 <= v <= 0x200a
    ||| v == 0x2028
    ||| v == 0x2029
    ||| v == 0x202f
    ||| v == 0x205f
    ||| v == 0x3000
}

/// `c` with an ASCII capital replaced by its small letter.
pub open spec fn ascii_lower_char(c: char) -> char {
    if 'A' <= c <= 'Z' {
        (c as u32 + 32) as char
    } else {
        c
    }
}

/// `s` with every ASCII capital replaced by its small letter.
pub open spec fn ascii_lower(s: Seq<char>) -> Seq<char> {
    Seq::new(s.len(), |i: int| ascii_lower_char(s[i]))
}

/// `needle` stands in `text` at position `at`.
pub open spec fn occurs_at(text: Seq<char>, needle: Seq<char>, at: int) -> bool {
    &&& 0 <= at
    &&& at + needle.len() <= text.len()
    &&& text.subrange(at, at + needle.len()) == needle
}

/// `needle` stands somewhere in `text`.
pub open spec fn has(text: Seq<char>, needle: Seq<char>) -> bool {
    exists|at: int| occurs_at(text, needle, at)
}

/// `s` without its leading white space.
pub open spec fn trim_start(s: Seq<char>) -> Seq<char>
    decreases s.len(),
{
    if s.len() > 0 && white_space(s[0]) {
        trim_start(s.drop_first())
    } else {
        s
    }
}

/// `s` without its trailing white space.
pub open spec fn trim_end(s: Seq<char>) -> Seq<char>
    decreases s.len(),
{
    if s.len() > 0 && white_space(s.last()) {
        trim_end(s.drop_last())
    } else {
        s
    }
}

/// `s` without leading and trailing white space.
pub open spec fn trimmed(s: Seq<char>) -> Seq<char> {
    trim_end(trim_start(s))
}

/// The pieces of `s` between the occurrences of `separator`: one more than there are of these.
pub open spec fn pieces(s: Seq<char>, separator: char) -> Seq<Seq<char>>
    decreases s.len(),
{
    if s.len() == 0 {
        seq![s]
    } else {
        let before = pieces(s.drop_last(), separator);
        if s.last() == separator {
            before.push(Seq::empty())
        } else {
            before.drop_last().push(before.last().push(s.last()))
        }
    }
}

/// `line` without one trailing carriage return.
pub open spec fn without_carriage_return(line: Seq<char>) -> Seq<char> {
    if line.len() > 0 && line.last() == '\r' {
        line.drop_last()
    } else {
        line
    }
}

/// The lines of `s`. A line ends in a line feed, or a carriage return and a line feed, neither
/// of which belongs to it; the last line may do without.
pub open spec fn text_lines(s: Seq<char>) -> Seq<Seq<char>> {
    let all = pieces(s, '\n');
    let ended = all.drop_last().map_values(|line: Seq<char>| without_carriage_return(line));
    if all.last().len() == 0 {
        ended
    } else {
        ended.push(all.last())
    }
}

/// What stands before and after the first `separator` in `s`, where there is one.
pub open spec fn split_at_first(s: Seq<char>, separator: char) -> Option<(Seq<char>, Seq<char>)> {
    match s.index_of_first(separator) {
        Some(at) => Some((s.take(at), s.skip(at + 1))),
        None => None,
    }
}

/// The parts in order with `separator` between neighbours.
pub open spec fn joined(parts: Seq<Seq<char>>, separator: Seq<char>) -> Seq<char>
    decreases parts.len(),
{
    if parts.len() == 0 {
        Seq::empty()
    } else if parts.len() == 1 {
        parts[0]
    } else {
        joined(parts.drop_last(), separator) + separator + parts.last()
    }
}

/// `count` spaces.
pub open spec fn spaces(count: nat) -> Seq<char> {
    Seq::new(count, |i: int| ' ')
}

/// `s`, followed by as many spaces as it takes to reach `width` characters.
pub open spec fn padded_right(s: Seq<char>, width: nat) -> Seq<char> {
    s + spaces(if s.len() < width { (width - s.len()) as nat } else { 0 })
}

/// `s`, preceded by as many spaces as it takes to reach `width` characters.
pub open spec fn padded_left(s: Seq<char>, width: nat) -> Seq<char> {
    spaces(if s.len() < width { (width - s.len()) as nat } else { 0 }) + s
}

/// A character that would break a line of tab-separated fields.
pub open spec fn breaks_field(c: char) -> bool {
    c == '\t' || c == '\r' || c == '\n'
}

/// `s` with each tab, carriage return and line feed replaced by a space.
pub open spec fn cleaned(s: Seq<char>) -> Seq<char> {
    Seq::new(s.len(), |i: int| if breaks_field(s[i]) { ' ' } else { s[i] })
}

/// The characters of each string.
pub open spec fn strings(list: Seq<String>) -> Seq<Seq<char>> {
    list.map_values(|s: String| s@)
}

/// The characters of each vector.
pub open spec fn char_lists(list: Seq<Vec<char>>) -> Seq<Seq<char>> {
    list.map_values(|s: Vec<char>| s@)
}

/// `a` comes before `b`, or is `b`, where texts are ordered by their first different character.
pub open spec fn text_le(a: Seq<char>, b: Seq<char>) -> bool
    decreases a.len(),
{
    if a.len() == 0 {
        true
    } else if b.len() == 0 {
        false
    } else if a[0] == b[0] {
        text_le(a.drop_first(), b.drop_first())
    } else {
        a[0] < b[0]
    }
}

// ---------------------------------------------------------------------------------------------
// Functions
// ---------------------------------------------------------------------------------------------
/// The characters of a string.
pub fn chars_of(s: &str) -> (result: Vec<char>)
    ensures
        result@ == s@,
{
    let mut result: Vec<char> = Vec::new();
    for c in it: s.chars()
        invariant
            it.seq() == s@,
            result@ == s@.take(it.index() as int),
    {
        result.push(c);
    }
    result
}

/// The string with the given characters.
pub fn string_of(chars: &[char]) -> (result: String)
    ensures
        result@ == chars@,
{
    let mut result = String::new();
    for i in 0..chars.len()
        invariant
            result@ == chars@.take(i as int),
    {
        result.push(chars[i]);
    }
    assert(chars@.take(chars@.len() as int) == chars@);
    result
}

/// Whether two texts are the same.
pub fn same(chars: &[char], text: &str) -> (result: bool)
    ensures
        result == (chars@ == text@),
{
    let other = chars_of(text);
    if chars.len() != other.len() {
        return false;
    }
    for i in 0..chars.len()
        invariant
            chars@.len() == other@.len(),
            other@ == text@,
            forall|j: int| 0 <= j < i ==> chars@[j] == other@[j],
    {
        if chars[i] != other[i] {
            return false;
        }
    }
    assert(chars@ =~= text@);
    true
}

/// Whether two strings are the same.
pub fn same_text(a: &str, b: &str) -> (result: bool)
    ensures
        result == (a@ == b@),
{
    let chars = chars_of(a);
    same(chars.as_slice(), b)
}

/// Whether `c` is white space.
pub fn is_white_space(c: char) -> (result: bool)
    ensures
        result == white_space(c),
{
    let v: u32 = c as u32;
    (0x09 <= v && v <= 0x0d) || v == 0x20 || v == 0x85 || v == 0xa0 || v == 0x1680 || (0x2000 <= v
        && v <= 0x200a) || v == 0x2028 || v == 0x2029 || v == 0x202f || v == 0x205f || v == 0x3000
}

/// `c` with an ASCII capital replaced by its small letter.
pub fn lower_char(c: char) -> (result: char)
    ensures
        result == ascii_lower_char(c),
{
    if 'A' <= c && c <= 'Z' {
        ((c as u8) + 32u8) as char
    } else {
        c
    }
}

/// The characters of `s` with every ASCII capital replaced by its small letter.
pub fn lower_chars(s: &str) -> (result: Vec<char>)
    ensures
        result@ == ascii_lower(s@),
{
    let mut result: Vec<char> = Vec::new();
    for c in it: s.chars()
        invariant
            it.seq() == s@,
            result@ == ascii_lower(s@).take(it.index() as int),
    {
        result.push(lower_char(c));
    }
    result
}

/// `s` with every ASCII capital replaced by its small letter.
pub fn to_lower(s: &str) -> (result: String)
    ensures
        result@ == ascii_lower(s@),
{
    let chars = lower_chars(s);
    string_of(chars.as_slice())
}

/// Whether `needle` stands in `text` at position `at`.
fn stands_at(text: &[char], needle: &[char], at: usize) -> (result: bool)
    requires
        at + needle@.len() <= text@.len(),
    ensures
        result == occurs_at(text@, needle@, at as int),
{
    let length: usize = text.len();
    for i in 0..needle.len()
        invariant
            length == text@.len(),
            at + needle@.len() <= length,
            forall|j: int| 0 <= j < i ==> text@[at + j] == needle@[j],
    {
        if text[at + i] != needle[i] {
            assert(text@.subrange(at as int, at + needle@.len())[i as int] != needle@[i as int]);
            return false;
        }
    }
    assert(text@.subrange(at as int, at + needle@.len()) =~= needle@);
    true
}

/// Whether `needle` stands somewhere in `text`.
pub fn contains(text: &[char], needle: &str) -> (result: bool)
    ensures
        result == has(text@, needle@),
{
    let needle_chars = chars_of(needle);
    if needle_chars.len() > text.len() {
        return false;
    }
    if needle_chars.len() == 0 {
        assert(text@.subrange(0, 0int + needle@.len()) =~= needle@);
        assert(occurs_at(text@, needle@, 0));
        return true;
    }
    let count: usize = text.len() - needle_chars.len() + 1;
    for at in 0..count
        invariant
            count + needle_chars@.len() == text@.len() + 1,
            needle_chars@ == needle@,
            forall|j: int| 0 <= j < at ==> !occurs_at(text@, needle@, j),
    {
        if stands_at(text, needle_chars.as_slice(), at) {
            return true;
        }
    }
    false
}

/// `s` without leading and trailing white space.
pub fn trim(s: &[char]) -> (result: Vec<char>)
    ensures
        result@ == trimmed(s@),
{
    let mut from: usize = 0;
    assert(s@.skip(0) =~= s@);
    while from < s.len() && is_white_space(s[from])
        invariant
            from <= s@.len(),
            trim_start(s@) == trim_start(s@.skip(from as int)),
        decreases s@.len() - from,
    {
        assert(s@.skip(from as int).drop_first() =~= s@.skip(from + 1));
        from = from + 1;
    }
    assert(trim_start(s@) == s@.skip(from as int));
    let mut to: usize = s.len();
    assert(s@.subrange(from as int, to as int) =~= s@.skip(from as int));
    while from < to && is_white_space(s[to - 1])
        invariant
            from <= to <= s@.len(),
            trimmed(s@) == trim_end(s@.subrange(from as int, to as int)),
        decreases to,
    {
        assert(s@.subrange(from as int, to as int).drop_last() =~= s@.subrange(
            from as int,
            to - 1,
        ));
        to = to - 1;
    }
    assert(trimmed(s@) == s@.subrange(from as int, to as int));
    slice_copy(s, from, to)
}

/// The characters of `s` from position `from` up to, not including, position `to`.
pub fn slice_copy(s: &[char], from: usize, to: usize) -> (result: Vec<char>)
    requires
        from <= to <= s@.len(),
    ensures
        result@ == s@.subrange(from as int, to as int),
{
    let mut result: Vec<char> = Vec::new();
    for i in from..to
        invariant
            from <= to <= s@.len(),
            result@ == s@.subrange(from as int, i as int),
    {
        result.push(s[i]);
    }
    result
}

/// Every text has at least one piece.
pub proof fn lemma_pieces_not_empty(s: Seq<char>, separator: char)
    ensures
        pieces(s, separator).len() > 0,
    decreases s.len(),
{
    if s.len() > 0 {
        lemma_pieces_not_empty(s.drop_last(), separator);
    }
}

/// The pieces of `s` between the occurrences of `separator`.
pub fn split(s: &[char], separator: char) -> (result: Vec<Vec<char>>)
    ensures
        char_lists(result@) == pieces(s@, separator),
{
    let mut result: Vec<Vec<char>> = Vec::new();
    let mut current: Vec<char> = Vec::new();
    assert(current@ =~= s@.take(0));
    assert(char_lists(result@).push(current@) =~= pieces(s@.take(0), separator));
    for i in 0..s.len()
        invariant
            char_lists(result@).push(current@) == pieces(s@.take(i as int), separator),
    {
        assert(s@.take(i + 1).drop_last() =~= s@.take(i as int));
        let ghost before = char_lists(result@).push(current@);
        assert(before.drop_last() =~= char_lists(result@));
        if s[i] == separator {
            let ghost ended = result@.push(current);
            assert(char_lists(ended) =~= before);
            result.push(current);
            current = Vec::new();
        } else {
            current.push(s[i]);
        }
    }
    assert(s@.take(s@.len() as int) =~= s@);
    let ghost ended = result@.push(current);
    assert(char_lists(ended) =~= char_lists(result@).push(current@));
    result.push(current);
    result
}

/// The lines of `s`.
pub fn lines(s: &[char]) -> (result: Vec<Vec<char>>)
    ensures
        char_lists(result@) == text_lines(s@),
{
    let all = split(s, '\n');
    proof {
        lemma_pieces_not_empty(s@, '\n');
        assert(char_lists(all@).len() == all@.len());
    }
    let count: usize = all.len() - 1;
    let ghost ended = pieces(s@, '\n').drop_last().map_values(
        |line: Seq<char>| without_carriage_return(line),
    );
    let mut result: Vec<Vec<char>> = Vec::new();
    for i in 0..count
        invariant
            count + 1 == all@.len(),
            char_lists(all@) == pieces(s@, '\n'),
            ended == pieces(s@, '\n').drop_last().map_values(
                |line: Seq<char>| without_carriage_return(line),
            ),
            char_lists(result@) == ended.take(i as int),
    {
        let line: &Vec<char> = &all[i];
        assert(line@ == pieces(s@, '\n')[i as int]);
        let end: usize = if line.len() > 0 && line[line.len() - 1] == '\r' {
            line.len() - 1
        } else {
            line.len()
        };
        let kept = slice_copy(line.as_slice(), 0, end);
        assert(kept@ =~= ended[i as int]);
        let ghost longer = result@.push(kept);
        assert(char_lists(longer) =~= char_lists(result@).push(kept@));
        assert(ended.take(i + 1) =~= ended.take(i as int).push(ended[i as int]));
        result.push(kept);
    }
    assert(ended.take(count as int) =~= ended);
    let rest: &Vec<char> = &all[count];
    assert(rest@ == pieces(s@, '\n').last());
    if rest.len() > 0 {
        let kept = slice_copy(rest.as_slice(), 0, rest.len());
        assert(kept@ =~= rest@);
        let ghost longer = result@.push(kept);
        assert(char_lists(longer) =~= ended.push(rest@));
        result.push(kept);
    }
    result
}

/// What stands before and after the first `separator` in `s`, where there is one.
pub fn split_once(s: &[char], separator: char) -> (result: Option<(Vec<char>, Vec<char>)>)
    ensures
        match result {
            Some(parts) => split_at_first(s@, separator) == Some((parts.0@, parts.1@)),
            None => split_at_first(s@, separator) is None,
        },
{
    proof {
        s@.index_of_first_ensures(separator);
    }
    for i in 0..s.len()
        invariant
            forall|j: int| 0 <= j < i ==> s@[j] != separator,
            s@.index_of_first(separator) matches Some(at) ==> {
                &&& 0 <= at < s@.len()
                &&& s@[at] == separator
                &&& !s@.take(at).contains(separator)
            },
            s@.index_of_first(separator) is None ==> !s@.contains(separator),
    {
        if s[i] == separator {
            assert(s@.contains(separator));
            let ghost at = s@.index_of_first(separator)->0;
            assert(at >= i);
            assert(at == i) by {
                if at > i {
                    assert(s@.take(at)[i as int] == separator);
                }
            }
            let before = slice_copy(s, 0, i);
            let after = slice_copy(s, i + 1, s.len());
            assert(before@ =~= s@.take(at));
            assert(after@ =~= s@.skip(at + 1));
            return Some((before, after));
        }
    }
    None
}

/// The parts in order with `separator` between neighbours.
pub fn join(parts: &Vec<String>, separator: &str) -> (result: String)
    ensures
        result@ == joined(strings(parts@), separator@),
{
    let mut result = String::new();
    let ghost all = strings(parts@);
    for i in 0..parts.len()
        invariant
            all == strings(parts@),
            result@ == joined(all.take(i as int), separator@),
    {
        assert(all.take(i + 1).drop_last() =~= all.take(i as int));
        assert(all[i as int] == parts@[i as int]@);
        if i > 0 {
            result.append(separator);
            result.append(parts[i].as_str());
        } else {
            result.append(parts[i].as_str());
            assert(result@ =~= all[0]);
        }
    }
    assert(all.take(parts@.len() as int) =~= all);
    result
}

/// Appends `count` spaces.
fn append_spaces(text: &mut String, count: usize)
    ensures
        final(text)@ == old(text)@ + spaces(count as nat),
{
    let ghost start = text@;
    assert(start + spaces(0) =~= start);
    for i in 0..count
        invariant
            text@ == start + spaces(i as nat),
    {
        assert((start + spaces(i as nat)).push(' ') =~= start + spaces((i + 1) as nat));
        text.push(' ');
    }
}

/// `s`, followed by as many spaces as it takes to reach `width` characters.
pub fn pad_right(s: &str, width: usize) -> (result: String)
    ensures
        result@ == padded_right(s@, width as nat),
{
    let mut result = s.to_owned();
    let length: usize = chars_of(s).len();
    append_spaces(&mut result, if length < width { width - length } else { 0 });
    result
}

/// `s`, preceded by as many spaces as it takes to reach `width` characters.
pub fn pad_left(s: &str, width: usize) -> (result: String)
    ensures
        result@ == padded_left(s@, width as nat),
{
    let mut result = String::new();
    let length: usize = chars_of(s).len();
    append_spaces(&mut result, if length < width { width - length } else { 0 });
    assert(result@ =~= spaces(if s@.len() < width { (width - s@.len()) as nat } else { 0 }));
    result.append(s);
    result
}

/// `value` with each tab, carriage return and line feed replaced by a space.
pub fn clean_field(value: &str) -> (result: String)
    ensures
        result@ == cleaned(value@),
{
    let chars = chars_of(value);
    let mut result = String::new();
    for i in 0..chars.len()
        invariant
            chars@ == value@,
            result@ == cleaned(value@).take(i as int),
    {
        let c: char = chars[i];
        if c == '\t' || c == '\r' || c == '\n' {
            result.push(' ');
        } else {
            result.push(c);
        }
        assert(result@ =~= cleaned(value@).take(i + 1));
    }
    assert(cleaned(value@).take(value@.len() as int) =~= cleaned(value@));
    result
}

/// Whether `a` comes before `b`, or is `b`.
pub fn at_most(a: &str, b: &str) -> (result: bool)
    ensures
        result == text_le(a@, b@),
{
    let left = chars_of(a);
    let right = chars_of(b);
    let mut i: usize = 0;
    assert(left@.skip(0) =~= a@);
    assert(right@.skip(0) =~= b@);
    while i < left.len() && i < right.len()
        invariant
            i <= left@.len(),
            i <= right@.len(),
            text_le(a@, b@) == text_le(left@.skip(i as int), right@.skip(i as int)),
        decreases left@.len() - i,
    {
        if left[i] != right[i] {
            return left[i] < right[i];
        }
        assert(left@.skip(i as int).drop_first() =~= left@.skip(i + 1));
        assert(right@.skip(i as int).drop_first() =~= right@.skip(i + 1));
        i = i + 1;
    }
    i == left.len()
}

// ---------------------------------------------------------------------------------------------
// Laws
// ---------------------------------------------------------------------------------------------
/// Text without a separator lengthens the last piece.
pub proof fn lemma_pieces_of_tail(s: Seq<char>, tail: Seq<char>, separator: char)
    requires
        !tail.contains(separator),
    ensures
        pieces(s + tail, separator) == pieces(s, separator).drop_last().push(
            pieces(s, separator).last() + tail,
        ),
    decreases tail.len(),
{
    let before = pieces(s, separator);
    lemma_pieces_not_empty(s, separator);
    if tail.len() == 0 {
        assert(s + tail =~= s);
        assert(before.last() + tail =~= before.last());
        assert(before.drop_last().push(before.last()) =~= before);
    } else {
        let shorter = tail.drop_last();
        assert(tail.contains(tail[tail.len() - 1]));
        assert(!shorter.contains(separator)) by {
            if shorter.contains(separator) {
                let k = choose|k: int| 0 <= k < shorter.len() && shorter[k] == separator;
                assert(tail[k] == separator);
            }
        }
        lemma_pieces_of_tail(s, shorter, separator);
        assert((s + tail).drop_last() =~= s + shorter);
        let so_far = pieces(s + shorter, separator);
        assert(so_far.drop_last() =~= before.drop_last());
        assert((before.last() + shorter).push(tail.last()) =~= before.last() + tail);
    }
}

/// Parts without the separator that are joined by it are given back by taking them apart.
pub proof fn law_joined_parts_come_apart(parts: Seq<Seq<char>>, separator: char)
    requires
        parts.len() > 0,
        forall|i: int| 0 <= i < parts.len() ==> !(#[trigger] parts[i]).contains(separator),
    ensures
        pieces(joined(parts, seq![separator]), separator) == parts,
    decreases parts.len(),
{
    let empty = Seq::<char>::empty();
    assert(!parts[parts.len() - 1].contains(separator));
    if parts.len() == 1 {
        lemma_pieces_of_tail(empty, parts[0], separator);
        assert(empty + parts[0] =~= parts[0]);
        assert(pieces(parts[0], separator) =~= parts);
    } else {
        let shorter = parts.drop_last();
        assert forall|i: int| 0 <= i < shorter.len() implies !(#[trigger] shorter[i]).contains(
            separator,
        ) by {
            assert(shorter[i] == parts[i]);
        }
        law_joined_parts_come_apart(shorter, separator);
        let start = joined(shorter, seq![separator]);
        let with_separator = start + seq![separator];
        assert(with_separator.drop_last() =~= start);
        assert(pieces(with_separator, separator) == shorter.push(empty));
        lemma_pieces_of_tail(with_separator, parts.last(), separator);
        assert(pieces(with_separator, separator).drop_last() =~= shorter);
        assert(empty + parts.last() =~= parts.last());
        assert(shorter.push(parts.last()) =~= parts);
    }
}

/// Text that is cleaned holds nothing that breaks a field, and cleaning it again changes
/// nothing.
pub proof fn law_cleaning_is_final(s: Seq<char>)
    ensures
        forall|i: int| 0 <= i < cleaned(s).len() ==> !breaks_field(#[trigger] cleaned(s)[i]),
        cleaned(cleaned(s)) == cleaned(s),
{
    assert(cleaned(cleaned(s)) =~= cleaned(s));
}

/// Text in small letters stays as it is when it is put in small letters.
pub proof fn law_lowering_is_final(s: Seq<char>)
    ensures
        ascii_lower(ascii_lower(s)) == ascii_lower(s),
{
    assert forall|i: int| 0 <= i < s.len() implies ascii_lower_char(ascii_lower_char(s[i]))
        == ascii_lower_char(s[i]) by {
        lemma_lowering_a_char(s[i]);
    }
    assert(ascii_lower(ascii_lower(s)) =~= ascii_lower(s));
}

proof fn lemma_lowering_a_char(c: char)
    ensures
        ascii_lower_char(ascii_lower_char(c)) == ascii_lower_char(c),
{
}

/// Lowering touches the letters from `A` to `Z` alone, and moves each to its small letter.
pub proof fn law_lowering_moves_capitals_only(s: Seq<char>, i: int)
    requires
        0 <= i < s.len(),
    ensures
        ascii_lower(s).len() == s.len(),
        65 <= s[i] as u32 <= 90 ==> ascii_lower(s)[i] as u32 == s[i] as u32 + 32,
        !(65 <= s[i] as u32 <= 90) ==> ascii_lower(s)[i] == s[i],
{
    lemma_lowered_char(s[i]);
}

proof fn lemma_lowered_char(c: char)
    ensures
        65 <= c as u32 <= 90 ==> ascii_lower_char(c) as u32 == c as u32 + 32,
        !(65 <= c as u32 <= 90) ==> ascii_lower_char(c) == c,
{
}

/// A text holds another exactly where it is made of something, that text, and something.
pub proof fn law_holding_is_standing_between(text: Seq<char>, needle: Seq<char>)
    ensures
        has(text, needle) <==> exists|front: Seq<char>, back: Seq<char>|
            text == #[trigger] (front + needle + back),
{
    if has(text, needle) {
        let at = choose|at: int| occurs_at(text, needle, at);
        let front = text.take(at);
        let back = text.skip(at + needle.len());
        assert(text =~= front + needle + back);
    }
    if exists|front: Seq<char>, back: Seq<char>| text == #[trigger] (front + needle + back) {
        let (front, back) = choose|front: Seq<char>, back: Seq<char>|
            text == #[trigger] (front + needle + back);
        let at = front.len() as int;
        assert(text.subrange(at, at + needle.len()) =~= needle);
        assert(occurs_at(text, needle, at));
    }
}

/// `core` is `s` from `from` to `to`: only white space stands before and behind, and neither end
/// of it is white space.
pub open spec fn is_core(s: Seq<char>, core: Seq<char>, from: int, to: int) -> bool {
    &&& 0 <= from <= to <= s.len()
    &&& core == s.subrange(from, to)
    &&& forall|i: int| 0 <= i < from ==> white_space(#[trigger] s[i])
    &&& forall|i: int| to <= i < s.len() ==> white_space(#[trigger] s[i])
    &&& from < to ==> !white_space(s[from]) && !white_space(s[to - 1])
}

proof fn lemma_trim_end(s: Seq<char>) -> (to: int)
    ensures
        0 <= to <= s.len(),
        trim_end(s) == s.take(to),
        forall|i: int| to <= i < s.len() ==> white_space(#[trigger] s[i]),
        to > 0 ==> !white_space(s[to - 1]),
    decreases s.len(),
{
    if s.len() > 0 && white_space(s.last()) {
        let to = lemma_trim_end(s.drop_last());
        assert(s.drop_last().take(to) =~= s.take(to));
        assert forall|i: int| to <= i < s.len() implies white_space(#[trigger] s[i]) by {
            if i < s.len() - 1 {
                assert(s.drop_last()[i] == s[i]);
            }
        }
        to
    } else {
        assert(s.take(s.len() as int) =~= s);
        s.len() as int
    }
}

proof fn lemma_trim_start(s: Seq<char>) -> (from: int)
    ensures
        0 <= from <= s.len(),
        trim_start(s) == s.skip(from),
        forall|i: int| 0 <= i < from ==> white_space(#[trigger] s[i]),
        from < s.len() ==> !white_space(s[from]),
    decreases s.len(),
{
    if s.len() > 0 && white_space(s[0]) {
        let rest = s.drop_first();
        let from = lemma_trim_start(rest);
        assert(rest.skip(from) =~= s.skip(from + 1));
        assert forall|i: int| 0 <= i < from + 1 implies white_space(#[trigger] s[i]) by {
            if i > 0 {
                assert(rest[i - 1] == s[i]);
            }
        }
        from + 1
    } else {
        assert(s.skip(0) =~= s);
        0
    }
}

/// Trimming takes away the white space at both ends, all of it and nothing else.
pub proof fn law_trimming_leaves_the_core(s: Seq<char>)
    ensures
        exists|from: int, to: int| #[trigger] is_core(s, trimmed(s), from, to),
{
    let from = lemma_trim_start(s);
    let rest = s.skip(from);
    let to = lemma_trim_end(rest);
    assert(rest.take(to) =~= s.subrange(from, from + to));
    assert forall|i: int| from + to <= i < s.len() implies white_space(#[trigger] s[i]) by {
        assert(rest[i - from] == s[i]);
    }
    if to > 0 {
        assert(rest[to - 1] == s[from + to - 1]);
    }
    assert(is_core(s, trimmed(s), from, from + to));
}

/// The pieces of a text, joined again, give the text, and none of them holds the separator.
pub proof fn law_pieces_join_up(s: Seq<char>, separator: char)
    ensures
        joined(pieces(s, separator), seq![separator]) == s,
        forall|i: int|
            0 <= i < pieces(s, separator).len() ==> !(#[trigger] pieces(s, separator)[i]).contains(
                separator,
            ),
    decreases s.len(),
{
    let all = pieces(s, separator);
    reveal_with_fuel(joined, 2);
    if s.len() > 0 {
        let before = pieces(s.drop_last(), separator);
        law_pieces_join_up(s.drop_last(), separator);
        lemma_pieces_not_empty(s.drop_last(), separator);
        assert(s =~= s.drop_last().push(s.last()));
        if s.last() == separator {
            assert(all.drop_last() =~= before);
            assert(joined(all, seq![separator]) =~= s);
            assert forall|i: int| 0 <= i < all.len() implies !(#[trigger] all[i]).contains(
                separator,
            ) by {
                if i < before.len() {
                    assert(all[i] == before[i]);
                }
            }
        } else {
            assert(all.drop_last() =~= before.drop_last());
            assert(joined(all, seq![separator]) =~= s);
            assert forall|i: int| 0 <= i < all.len() implies !(#[trigger] all[i]).contains(
                separator,
            ) by {
                if i < before.len() - 1 {
                    assert(all[i] == before[i]);
                } else {
                    let last = before[before.len() - 1];
                    if all[i].contains(separator) {
                        let k = choose|k: int|
                            0 <= k < all[i].len() && all[i][k] == separator;
                        assert(last[k] == separator);
                    }
                }
            }
        }
    }
}

/// A text is split at its first separator: what stands before it holds none, and the two parts
/// with the separator between them give the text.
pub proof fn law_split_is_at_the_first(s: Seq<char>, separator: char)
    ensures
        match split_at_first(s, separator) {
            Some(parts) => s == parts.0 + seq![separator] + parts.1 && !parts.0.contains(separator),
            None => !s.contains(separator),
        },
{
    s.index_of_first_ensures(separator);
    if let Some(parts) = split_at_first(s, separator) {
        let at = s.index_of_first(separator)->0;
        assert(s =~= parts.0 + seq![separator] + parts.1);
        if parts.0.contains(separator) {
            let k = choose|k: int| 0 <= k < parts.0.len() && parts.0[k] == separator;
            assert(s.take(at)[k] == s[k]);
        }
    }
}

/// To join is to write one part after the other with the separator between them.
pub proof fn law_joining_goes_part_by_part(
    parts: Seq<Seq<char>>,
    part: Seq<char>,
    separator: Seq<char>,
)
    ensures
        joined(Seq::empty(), separator) == Seq::<char>::empty(),
        joined(seq![part], separator) == part,
        parts.len() > 0 ==> joined(parts.push(part), separator) == joined(parts, separator)
            + separator + part,
{
    assert(parts.push(part).drop_last() =~= parts);
}

/// Each line followed by `end`.
pub open spec fn ended(lines: Seq<Seq<char>>, end: Seq<char>) -> Seq<char>
    decreases lines.len(),
{
    if lines.len() == 0 {
        Seq::empty()
    } else {
        ended(lines.drop_last(), end) + lines.last() + end
    }
}

proof fn lemma_ended_pieces(lines: Seq<Seq<char>>, end: Seq<char>)
    requires
        forall|i: int| 0 <= i < lines.len() ==> !(#[trigger] lines[i]).contains('\n'),
        end == seq!['\n'] || end == seq!['\r', '\n'],
    ensures
        pieces(ended(lines, end), '\n') == lines.map_values(
            |line: Seq<char>| line + end.drop_last(),
        ).push(Seq::empty()),
    decreases lines.len(),
{
    let f = |line: Seq<char>| line + end.drop_last();
    let whole = ended(lines, end);
    if lines.len() == 0 {
        assert(pieces(whole, '\n') =~= lines.map_values(f).push(Seq::empty()));
    } else {
        let shorter = lines.drop_last();
        let last = lines[lines.len() - 1];
        let before = ended(shorter, end);
        assert forall|i: int| 0 <= i < shorter.len() implies !(#[trigger] shorter[i]).contains(
            '\n',
        ) by {
            assert(shorter[i] == lines[i]);
        }
        lemma_ended_pieces(shorter, end);
        let tail = last + end.drop_last();
        assert(!tail.contains('\n')) by {
            if tail.contains('\n') {
                let k = choose|k: int| 0 <= k < tail.len() && tail[k] == '\n';
                if k < last.len() {
                    assert(last[k] == '\n');
                }
            }
        }
        lemma_pieces_of_tail(before, tail, '\n');
        assert(whole =~= (before + tail).push('\n'));
        assert(whole.drop_last() =~= before + tail);
        let old = pieces(before, '\n');
        assert(Seq::<char>::empty() + tail =~= tail);
        assert(old.drop_last() =~= shorter.map_values(f));
        assert(pieces(whole, '\n') =~= lines.map_values(f).push(Seq::empty()));
    }
}

/// Lines that are written one after the other, each with a line end, are read back one by one.
/// A line end is a line feed or a carriage return and a line feed; the last line may do without.
pub proof fn law_lines_read_back(lines: Seq<Seq<char>>, last: Seq<char>, end: Seq<char>)
    requires
        end == seq!['\n'] || end == seq!['\r', '\n'],
        forall|i: int|
            0 <= i < lines.len() ==> !(#[trigger] lines[i]).contains('\n') && (end.len() == 1
                && lines[i].len() > 0 ==> lines[i].last() != '\r'),
        !last.contains('\n'),
        last.len() > 0,
    ensures
        text_lines(ended(lines, end)) == lines,
        text_lines(ended(lines, end) + last) == lines.push(last),
{
    let f = |line: Seq<char>| line + end.drop_last();
    let g = |line: Seq<char>| without_carriage_return(line);
    let whole = ended(lines, end);
    lemma_ended_pieces(lines, end);
    let all = pieces(whole, '\n');
    assert(all.drop_last() =~= lines.map_values(f));
    assert forall|i: int| 0 <= i < lines.len() implies lines.map_values(f).map_values(g)[i]
        == lines[i] by {
        let line = lines[i] + end.drop_last();
        if end.len() == 1 {
            assert(line =~= lines[i]);
        } else {
            assert(line.last() == '\r');
            assert(line.drop_last() =~= lines[i]);
        }
    }
    assert(lines.map_values(f).map_values(g) =~= lines);
    assert(text_lines(whole) =~= lines);
    lemma_pieces_of_tail(whole, last, '\n');
    assert(Seq::<char>::empty() + last =~= last);
    assert(pieces(whole + last, '\n').drop_last() =~= lines.map_values(f));
    assert(text_lines(whole + last) =~= lines.push(last));
}

/// Padding adds spaces alone, on the one side or the other, up to the width and never beyond it.
pub proof fn law_padding_reaches_the_width(s: Seq<char>, width: nat)
    ensures
        padded_right(s, width).len() == if s.len() < width { width } else { s.len() },
        padded_left(s, width).len() == if s.len() < width { width } else { s.len() },
        padded_right(s, width).take(s.len() as int) == s,
        padded_left(s, width).skip(padded_left(s, width).len() - s.len()) == s,
        forall|i: int|
            s.len() <= i < padded_right(s, width).len() ==> #[trigger] padded_right(s, width)[i]
                == ' ',
        forall|i: int|
            0 <= i < padded_left(s, width).len() - s.len() ==> #[trigger] padded_left(s, width)[i]
                == ' ',
{
    assert(padded_right(s, width).take(s.len() as int) =~= s);
    assert(padded_left(s, width).skip(padded_left(s, width).len() - s.len()) =~= s);
}

/// Cleaning puts a space for each tab, carriage return and line feed, and leaves the rest.
pub proof fn law_cleaning_puts_spaces(s: Seq<char>, i: int)
    requires
        0 <= i < s.len(),
    ensures
        cleaned(s).len() == s.len(),
        s[i] as u32 == 9 || s[i] as u32 == 10 || s[i] as u32 == 13 ==> cleaned(s)[i] == ' ',
        s[i] as u32 != 9 && s[i] as u32 != 10 && s[i] as u32 != 13 ==> cleaned(s)[i] == s[i],
{
    lemma_cleaned_char(s[i]);
}

proof fn lemma_cleaned_char(c: char)
    ensures
        breaks_field(c) <==> c as u32 == 9 || c as u32 == 10 || c as u32 == 13,
{
}

/// Texts are ordered by the first character in which they differ; where there is none, the
/// shorter comes first.
pub proof fn law_texts_are_ordered_by_the_first_difference(a: Seq<char>, b: Seq<char>, i: int)
    requires
        0 <= i <= a.len(),
        i <= b.len(),
        a.take(i) == b.take(i),
        i == a.len() || i == b.len() || a[i] != b[i],
    ensures
        i == a.len() ==> text_le(a, b),
        i < a.len() && i == b.len() ==> !text_le(a, b),
        i < a.len() && i < b.len() ==> (text_le(a, b) <==> a[i] < b[i]),
    decreases i,
{
    if i > 0 {
        assert(a.take(i)[0] == a[0] && b.take(i)[0] == b[0]);
        let x = a.drop_first();
        let y = b.drop_first();
        assert(x.take(i - 1) =~= a.take(i).drop_first());
        assert(y.take(i - 1) =~= b.take(i).drop_first());
        assert(i < a.len() ==> x[i - 1] == a[i]);
        assert(i < b.len() ==> y[i - 1] == b[i]);
        law_texts_are_ordered_by_the_first_difference(x, y, i - 1);
    }
}

/// Each part stands somewhere in what is joined.
pub proof fn lemma_part_of_joined(parts: Seq<Seq<char>>, separator: Seq<char>, i: int) -> (around: (
    Seq<char>,
    Seq<char>,
))
    requires
        0 <= i < parts.len(),
    ensures
        joined(parts, separator) == around.0 + parts[i] + around.1,
    decreases parts.len(),
{
    let whole = joined(parts, separator);
    let none = Seq::<char>::empty();
    if parts.len() == 1 {
        assert(whole =~= none + parts[i] + none);
        (none, none)
    } else if i == parts.len() - 1 {
        let front = joined(parts.drop_last(), separator) + separator;
        assert(whole =~= front + parts[i] + none);
        (front, none)
    } else {
        let (front, back) = lemma_part_of_joined(parts.drop_last(), separator, i);
        let rest = back + separator + parts.last();
        assert(whole =~= front + parts[i] + rest);
        (front, rest)
    }
}


/// White space is the space, what moves to another column or line, and the spaces of other widths.
pub proof fn law_white_space_shows_nothing(c: char)
    ensures
        white_space(c) <==> c == ' ' || c == '\t' || c == '\n' || c == '\u{0b}' || c == '\u{0c}' || c
            == '\r' || c == '\u{85}' || c == '\u{a0}' || c == '\u{1680}' || '\u{2000}' <= c
            <= '\u{200a}' || c == '\u{2028}' || c == '\u{2029}' || c == '\u{202f}' || c
            == '\u{205f}' || c == '\u{3000}',
{
}

} // verus!
