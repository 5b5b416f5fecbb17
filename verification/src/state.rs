//! The state file: a version line, then one line of tab-separated fields for each entry.
//!
//! The command line of a process is never written. Its place among the fields stays empty.
use vstd::prelude::*;

use crate::decimal::{self, parse_number, to_decimal};
use crate::model::{self, Category, Entry, EntryModel, Status};
use crate::text::{self, chars_of, clean_field, join, lines, same, split, string_of};

verus! {

// ---------------------------------------------------------------------------------------------
// Models
// ---------------------------------------------------------------------------------------------
/// The fields of one entry.
pub open spec fn fields_of(entry: EntryModel) -> Seq<Seq<char>> {
    seq![
        text::cleaned(entry.identity),
        decimal::decimal(entry.pid as nat),
        decimal::decimal(entry.parent_pid as nat),
        text::cleaned(entry.name),
        model::category_key(entry.category),
        if entry.learned_owned { "1"@ } else { "0"@ },
        decimal::decimal(entry.first_seen as nat),
        decimal::decimal(entry.last_seen as nat),
        decimal::decimal(entry.last_activity as nat),
        decimal::decimal(entry.cpu_ticks as nat),
        decimal::decimal(entry.orphan_since as nat),
        model::status_key(entry.status),
        Seq::empty(),
        decimal::decimal(entry.started as nat),
        decimal::decimal(entry.owner_pid as nat),
        text::cleaned(entry.owner_name),
        text::cleaned(entry.relation_path),
        decimal::decimal(entry.child_count as nat),
    ]
}

/// The line of one entry, without its end.
pub open spec fn line_of(entry: EntryModel) -> Seq<char> {
    text::joined(fields_of(entry), "\t"@)
}

/// The content of the state file.
pub open spec fn content_of(entries: Seq<EntryModel>) -> Seq<char>
    decreases entries.len(),
{
    if entries.len() == 0 {
        "v4"@ + "\n"@
    } else {
        content_of(entries.drop_last()) + line_of(entries.last()) + "\n"@
    }
}

/// The number in a field that may be missing; zero where it is, or where it holds no number.
pub open spec fn optional_number(fields: Seq<Seq<char>>, at: int, max: nat) -> nat {
    if at < fields.len() {
        match decimal::number(fields[at], max) {
            Some(n) => n,
            None => 0,
        }
    } else {
        0
    }
}

/// The text in a field that may be missing.
pub open spec fn optional_text(fields: Seq<Seq<char>>, at: int) -> Seq<char> {
    if at < fields.len() {
        fields[at]
    } else {
        Seq::empty()
    }
}

/// The fields hold an entry: there are at least thirteen, the category and the status are
/// known, and each field that must be a number is one.
pub open spec fn holds_entry(fields: Seq<Seq<char>>) -> bool {
    &&& fields.len() >= 13
    &&& decimal::number(fields[1], u32::MAX as nat) is Some
    &&& decimal::number(fields[2], u32::MAX as nat) is Some
    &&& model::category_of_key(fields[4]) is Some
    &&& decimal::number(fields[6], u64::MAX as nat) is Some
    &&& decimal::number(fields[7], u64::MAX as nat) is Some
    &&& decimal::number(fields[8], u64::MAX as nat) is Some
    &&& decimal::number(fields[9], u64::MAX as nat) is Some
    &&& decimal::number(fields[10], u64::MAX as nat) is Some
    &&& model::status_of_key(fields[11]) is Some
}

/// The entry that the fields hold.
pub open spec fn entry_of(fields: Seq<Seq<char>>) -> EntryModel {
    EntryModel {
        identity: fields[0],
        pid: decimal::number(fields[1], u32::MAX as nat)->0 as u32,
        parent_pid: decimal::number(fields[2], u32::MAX as nat)->0 as u32,
        name: fields[3],
        command_line: fields[12],
        category: model::category_of_key(fields[4])->0,
        learned_owned: fields[5] == "1"@,
        first_seen: decimal::number(fields[6], u64::MAX as nat)->0 as u64,
        last_seen: decimal::number(fields[7], u64::MAX as nat)->0 as u64,
        last_activity: decimal::number(fields[8], u64::MAX as nat)->0 as u64,
        cpu_ticks: decimal::number(fields[9], u64::MAX as nat)->0 as u64,
        orphan_since: decimal::number(fields[10], u64::MAX as nat)->0 as u64,
        status: model::status_of_key(fields[11])->0,
        started: optional_number(fields, 13, u64::MAX as nat) as u64,
        owner_pid: optional_number(fields, 14, u32::MAX as nat) as u32,
        owner_name: optional_text(fields, 15),
        relation_path: optional_text(fields, 16),
        child_count: optional_number(fields, 17, usize::MAX as nat) as usize,
    }
}

/// The entries that the lines hold. A line that holds none is passed over.
pub open spec fn entries_in(lines: Seq<Seq<char>>) -> Seq<EntryModel>
    decreases lines.len(),
{
    if lines.len() == 0 {
        Seq::empty()
    } else {
        let before = entries_in(lines.drop_last());
        let fields = text::pieces(lines.last(), '\t');
        if holds_entry(fields) {
            before.push(entry_of(fields))
        } else {
            before
        }
    }
}

/// The entries of a state file: those of all lines but the first. A file that could not be
/// read has none.
pub open spec fn entries_of(file: Option<Seq<char>>) -> Seq<EntryModel> {
    match file {
        Some(content) => {
            let all = text::text_lines(content);
            if all.len() == 0 {
                Seq::empty()
            } else {
                entries_in(all.drop_first())
            }
        },
        None => Seq::empty(),
    }
}

/// What a state file keeps of an entry: everything but the command line, with each text
/// cleaned.
pub open spec fn kept(entry: EntryModel) -> EntryModel {
    EntryModel {
        identity: text::cleaned(entry.identity),
        name: text::cleaned(entry.name),
        command_line: Seq::empty(),
        owner_name: text::cleaned(entry.owner_name),
        relation_path: text::cleaned(entry.relation_path),
        ..entry
    }
}

// ---------------------------------------------------------------------------------------------
// Functions
// ---------------------------------------------------------------------------------------------
/// The line of one entry, without its end.
fn write_entry(entry: &Entry) -> (result: String)
    ensures
        result@ == line_of(entry@),
{
    let mut fields: Vec<String> = Vec::new();
    fields.push(clean_field(entry.identity.as_str()));
    fields.push(to_decimal(entry.pid as u64));
    fields.push(to_decimal(entry.parent_pid as u64));
    fields.push(clean_field(entry.name.as_str()));
    fields.push(entry.category.as_str().to_owned());
    fields.push(if entry.learned_owned { "1".to_owned() } else { "0".to_owned() });
    fields.push(to_decimal(entry.first_seen));
    fields.push(to_decimal(entry.last_seen));
    fields.push(to_decimal(entry.last_activity));
    fields.push(to_decimal(entry.cpu_ticks));
    fields.push(to_decimal(entry.orphan_since));
    fields.push(entry.status.as_str().to_owned());
    fields.push(String::new());
    fields.push(to_decimal(entry.started));
    fields.push(to_decimal(entry.owner_pid as u64));
    fields.push(clean_field(entry.owner_name.as_str()));
    fields.push(clean_field(entry.relation_path.as_str()));
    fields.push(to_decimal(entry.child_count as u64));
    assert(text::strings(fields@) =~= fields_of(entry@));
    join(&fields, "\t")
}

/// The content of the state file for the given entries.
pub fn write_state(entries: &[Entry]) -> (result: String)
    ensures
        result@ == content_of(model::entry_models(entries@)),
{
    let ghost models = model::entry_models(entries@);
    let mut result = "v4".to_owned();
    result.append("\n");
    assert(models.take(0) =~= Seq::empty());
    for i in 0..entries.len()
        invariant
            models == model::entry_models(entries@),
            result@ == content_of(models.take(i as int)),
    {
        assert(models.take(i + 1).drop_last() =~= models.take(i as int));
        let line = write_entry(&entries[i]);
        result.append(line.as_str());
        result.append("\n");
    }
    assert(models.take(entries@.len() as int) =~= models);
    result
}

/// The number in a field that may be missing.
fn read_optional_number(fields: &Vec<Vec<char>>, at: usize, max: u64) -> (result: u64)
    ensures
        result == optional_number(text::char_lists(fields@), at as int, max as nat),
{
    if at < fields.len() {
        assert(text::char_lists(fields@)[at as int] == fields@[at as int]@);
        match parse_number(fields[at].as_slice(), max) {
            Some(n) => n,
            None => 0,
        }
    } else {
        0
    }
}

/// The text in a field that may be missing.
fn read_optional_text(fields: &Vec<Vec<char>>, at: usize) -> (result: String)
    ensures
        result@ == optional_text(text::char_lists(fields@), at as int),
{
    if at < fields.len() {
        assert(text::char_lists(fields@)[at as int] == fields@[at as int]@);
        string_of(fields[at].as_slice())
    } else {
        String::new()
    }
}

/// The entry that the fields hold, if they hold one.
fn read_entry(fields: &Vec<Vec<char>>) -> (result: Option<Entry>)
    ensures
        match result {
            Some(entry) => holds_entry(text::char_lists(fields@)) && entry@ == entry_of(
                text::char_lists(fields@),
            ),
            None => !holds_entry(text::char_lists(fields@)),
        },
{
    let ghost all = text::char_lists(fields@);
    assert forall|i: int| 0 <= i < all.len() implies all[i] == #[trigger] fields@[i]@ by {}
    if fields.len() < 13 {
        return None;
    }
    let category = match Category::parse(fields[4].as_slice()) {
        Some(category) => category,
        None => return None,
    };
    let status = match Status::parse(fields[11].as_slice()) {
        Some(status) => status,
        None => return None,
    };
    let pid: u64 = match parse_number(fields[1].as_slice(), u32::MAX as u64) {
        Some(n) => n,
        None => return None,
    };
    let parent_pid: u64 = match parse_number(fields[2].as_slice(), u32::MAX as u64) {
        Some(n) => n,
        None => return None,
    };
    let first_seen: u64 = match parse_number(fields[6].as_slice(), u64::MAX) {
        Some(n) => n,
        None => return None,
    };
    let last_seen: u64 = match parse_number(fields[7].as_slice(), u64::MAX) {
        Some(n) => n,
        None => return None,
    };
    let last_activity: u64 = match parse_number(fields[8].as_slice(), u64::MAX) {
        Some(n) => n,
        None => return None,
    };
    let cpu_ticks: u64 = match parse_number(fields[9].as_slice(), u64::MAX) {
        Some(n) => n,
        None => return None,
    };
    let orphan_since: u64 = match parse_number(fields[10].as_slice(), u64::MAX) {
        Some(n) => n,
        None => return None,
    };
    Some(
        Entry {
            identity: string_of(fields[0].as_slice()),
            pid: pid as u32,
            parent_pid: parent_pid as u32,
            name: string_of(fields[3].as_slice()),
            command_line: string_of(fields[12].as_slice()),
            category,
            learned_owned: same(fields[5].as_slice(), "1"),
            first_seen,
            last_seen,
            last_activity,
            cpu_ticks,
            orphan_since,
            status,
            started: read_optional_number(fields, 13, u64::MAX),
            owner_pid: read_optional_number(fields, 14, u32::MAX as u64) as u32,
            owner_name: read_optional_text(fields, 15),
            relation_path: read_optional_text(fields, 16),
            child_count: read_optional_number(fields, 17, usize::MAX as u64) as usize,
        },
    )
}

/// The entries of a state file with the given content, none where it could not be read.
pub fn read_state(file: Option<&str>) -> (result: Vec<Entry>)
    ensures
        file matches Some(content) ==> model::entry_models(result@) == entries_of(Some(content@)),
        file is None ==> model::entry_models(result@) == entries_of(None),
{
    let mut result: Vec<Entry> = Vec::new();
    assert(model::entry_models(result@) =~= Seq::empty());
    if let Some(content) = file {
        let all = lines(chars_of(content).as_slice());
        let ghost text_lines = text::text_lines(content@);
        assert(text::char_lists(all@).len() == all@.len());
        if all.len() > 0 {
            let ghost rest = text_lines.drop_first();
            assert(rest.take(0) =~= Seq::empty());
            for i in 1..all.len()
                invariant
                    text::char_lists(all@) == text_lines,
                    rest == text_lines.drop_first(),
                    all@.len() > 0,
                    text_lines.len() == all@.len(),
                    model::entry_models(result@) == entries_in(rest.take(i - 1)),
            {
                assert(rest.take(i as int).drop_last() =~= rest.take(i - 1));
                assert(all@[i as int]@ == rest[i - 1]);
                let fields = split(all[i].as_slice(), '\t');
                match read_entry(&fields) {
                    Some(entry) => {
                        let ghost longer = result@.push(entry);
                        assert(model::entry_models(longer) =~= model::entry_models(result@).push(
                            entry@,
                        ));
                        result.push(entry);
                    },
                    None => {},
                }
            }
            assert(rest.take(all@.len() - 1) =~= rest);
        }
    }
    result
}

// ---------------------------------------------------------------------------------------------
// Laws
// ---------------------------------------------------------------------------------------------
/// Nothing in `s` breaks a field.
spec fn plain(s: Seq<char>) -> bool {
    forall|i: int| 0 <= i < s.len() ==> !text::breaks_field(#[trigger] s[i])
}

proof fn lemma_keys_are_plain(category: Category, status: Status, flag: bool)
    ensures
        plain(model::category_key(category)),
        plain(model::status_key(status)),
        plain(if flag { "1"@ } else { "0"@ }),
{
    reveal_strlit("Direct");
    reveal_strlit("Browser");
    reveal_strlit("ToolServer");
    reveal_strlit("Owned");
    reveal_strlit("OwnedIdleBrowser");
    reveal_strlit("OwnedIdleTool");
    reveal_strlit("GracePeriod");
    reveal_strlit("Candidate");
    reveal_strlit("SuspectOnly");
    reveal_strlit("1");
    reveal_strlit("0");
}

proof fn lemma_numeral_is_plain(n: nat)
    ensures
        plain(decimal::decimal(n)),
{
    decimal::lemma_decimal_is_digits(n);
    assert forall|i: int| 0 <= i < decimal::decimal(n).len() implies !text::breaks_field(
        #[trigger] decimal::decimal(n)[i],
    ) by {
        assert(decimal::is_digit(decimal::decimal(n)[i]));
    }
}

proof fn lemma_fields_are_plain(entry: EntryModel)
    ensures
        fields_of(entry).len() == 18,
        forall|i: int| 0 <= i < 18 ==> plain(#[trigger] fields_of(entry)[i]),
{
    text::law_cleaning_is_final(entry.identity);
    text::law_cleaning_is_final(entry.name);
    text::law_cleaning_is_final(entry.owner_name);
    text::law_cleaning_is_final(entry.relation_path);
    lemma_keys_are_plain(entry.category, entry.status, entry.learned_owned);
    lemma_numeral_is_plain(entry.pid as nat);
    lemma_numeral_is_plain(entry.parent_pid as nat);
    lemma_numeral_is_plain(entry.first_seen as nat);
    lemma_numeral_is_plain(entry.last_seen as nat);
    lemma_numeral_is_plain(entry.last_activity as nat);
    lemma_numeral_is_plain(entry.cpu_ticks as nat);
    lemma_numeral_is_plain(entry.orphan_since as nat);
    lemma_numeral_is_plain(entry.started as nat);
    lemma_numeral_is_plain(entry.owner_pid as nat);
    lemma_numeral_is_plain(entry.child_count as nat);
}

/// Fields that nothing breaks are joined by tabs to a line that neither a line feed nor a
/// carriage return breaks.
proof fn lemma_line_has_no_end(fields: Seq<Seq<char>>)
    requires
        forall|i: int| 0 <= i < fields.len() ==> plain(#[trigger] fields[i]),
    ensures
        forall|i: int|
            0 <= i < text::joined(fields, "\t"@).len() ==> (#[trigger] text::joined(
                fields,
                "\t"@,
            )[i]) != '\n' && text::joined(fields, "\t"@)[i] != '\r',
    decreases fields.len(),
{
    reveal_strlit("\t");
    if fields.len() > 0 {
        assert(plain(fields[fields.len() - 1]));
        if fields.len() == 1 {
            assert(plain(fields[0]));
        } else {
            let shorter = fields.drop_last();
            assert forall|i: int| 0 <= i < shorter.len() implies plain(#[trigger] shorter[i]) by {
                assert(shorter[i] == fields[i]);
            }
            lemma_line_has_no_end(shorter);
            let start = text::joined(shorter, "\t"@);
            let line = text::joined(fields, "\t"@);
            assert forall|i: int| 0 <= i < line.len() implies (#[trigger] line[i]) != '\n' && line[i]
                != '\r' by {
                if i < start.len() {
                    assert(line[i] == start[i]);
                } else if i == start.len() {
                    assert(line[i] == '\t');
                } else {
                    assert(line[i] == fields.last()[i - start.len() - 1]);
                }
            }
        }
    }
}

/// The line of an entry is taken apart into its fields.
proof fn lemma_line_comes_apart(entry: EntryModel)
    ensures
        text::pieces(line_of(entry), '\t') == fields_of(entry),
{
    lemma_fields_are_plain(entry);
    reveal_strlit("\t");
    assert("\t"@ =~= seq!['\t']);
    let fields = fields_of(entry);
    assert forall|i: int| 0 <= i < fields.len() implies !(#[trigger] fields[i]).contains(
        '\t',
    ) by {
        assert(plain(fields[i]));
    }
    text::law_joined_parts_come_apart(fields, '\t');
}

/// The fields of an entry hold what the file keeps of it.
proof fn lemma_fields_read_back(entry: EntryModel)
    ensures
        holds_entry(fields_of(entry)),
        entry_of(fields_of(entry)) == kept(entry),
{
    let fields = fields_of(entry);
    model::law_category_key_reads_back(entry.category);
    model::law_status_key_reads_back(entry.status);
    decimal::law_decimal_reads_back(entry.pid as nat, u32::MAX as nat);
    decimal::law_decimal_reads_back(entry.parent_pid as nat, u32::MAX as nat);
    decimal::law_decimal_reads_back(entry.first_seen as nat, u64::MAX as nat);
    decimal::law_decimal_reads_back(entry.last_seen as nat, u64::MAX as nat);
    decimal::law_decimal_reads_back(entry.last_activity as nat, u64::MAX as nat);
    decimal::law_decimal_reads_back(entry.cpu_ticks as nat, u64::MAX as nat);
    decimal::law_decimal_reads_back(entry.orphan_since as nat, u64::MAX as nat);
    decimal::law_decimal_reads_back(entry.started as nat, u64::MAX as nat);
    decimal::law_decimal_reads_back(entry.owner_pid as nat, u32::MAX as nat);
    decimal::law_decimal_reads_back(entry.child_count as nat, usize::MAX as nat);
    reveal_strlit("1");
    reveal_strlit("0");
    assert("1"@[0] != "0"@[0]);
    assert(entry_of(fields) =~= kept(entry));
}

/// The pieces of the content: the version, the lines, and nothing behind the last end.
proof fn lemma_content_pieces(entries: Seq<EntryModel>)
    ensures
        text::pieces(content_of(entries), '\n') == seq!["v4"@] + entries.map_values(
            |entry: EntryModel| line_of(entry),
        ) + seq![Seq::<char>::empty()],
    decreases entries.len(),
{
    let f = |entry: EntryModel| line_of(entry);
    let empty = Seq::<char>::empty();
    reveal_strlit("\n");
    assert("\n"@ =~= seq!['\n']);
    let content = content_of(entries);
    if entries.len() == 0 {
        reveal_strlit("v4");
        assert(!"v4"@.contains('\n')) by {
            assert("v4"@.len() == 2);
            assert("v4"@[0] == 'v');
            assert("v4"@[1] == '4');
        }
        text::lemma_pieces_of_tail(empty, "v4"@, '\n');
        assert(empty + "v4"@ =~= "v4"@);
        assert(text::pieces("v4"@, '\n') =~= seq!["v4"@]);
        assert(content.drop_last() =~= "v4"@);
        assert(text::pieces(content, '\n') =~= seq!["v4"@] + entries.map_values(f) + seq![empty]);
    } else {
        let shorter = entries.drop_last();
        lemma_content_pieces(shorter);
        let start = content_of(shorter);
        let line = line_of(entries.last());
        lemma_fields_are_plain(entries.last());
        lemma_line_has_no_end(fields_of(entries.last()));
        assert(!line.contains('\n'));
        text::lemma_pieces_of_tail(start, line, '\n');
        let before = seq!["v4"@] + shorter.map_values(f);
        assert(text::pieces(start, '\n') =~= before.push(empty));
        assert(text::pieces(start, '\n').drop_last() =~= before);
        assert(empty + line =~= line);
        assert(content.drop_last() =~= start + line);
        assert(content.last() == '\n');
        assert(text::pieces(content, '\n') == before.push(line).push(empty));
        assert(entries.map_values(f) =~= shorter.map_values(f).push(line));
        assert(before.push(line).push(empty) =~= seq!["v4"@] + entries.map_values(f) + seq![empty]);
    }
}

/// The lines of the content are the version and the lines of the entries.
proof fn lemma_content_lines(entries: Seq<EntryModel>)
    ensures
        text::text_lines(content_of(entries)) == seq!["v4"@] + entries.map_values(
            |entry: EntryModel| line_of(entry),
        ),
{
    let f = |entry: EntryModel| line_of(entry);
    let strip = |line: Seq<char>| text::without_carriage_return(line);
    lemma_content_pieces(entries);
    let lines = seq!["v4"@] + entries.map_values(f);
    let all = text::pieces(content_of(entries), '\n');
    assert(all.drop_last() =~= lines);
    assert(all.last().len() == 0);
    assert forall|i: int| 0 <= i < lines.len() implies text::without_carriage_return(
        #[trigger] lines[i],
    ) == lines[i] by {
        if i == 0 {
            reveal_strlit("v4");
            assert("v4"@.last() == '4');
        } else {
            let entry = entries[i - 1];
            assert(lines[i] == line_of(entry));
            lemma_fields_are_plain(entry);
            lemma_line_has_no_end(fields_of(entry));
        }
    }
    assert(lines.map_values(strip) =~= lines);
}

proof fn lemma_lines_read_back(entries: Seq<EntryModel>)
    ensures
        entries_in(entries.map_values(|entry: EntryModel| line_of(entry))) == entries.map_values(
            |entry: EntryModel| kept(entry),
        ),
    decreases entries.len(),
{
    let f = |entry: EntryModel| line_of(entry);
    let g = |entry: EntryModel| kept(entry);
    if entries.len() == 0 {
        assert(entries_in(entries.map_values(f)) =~= entries.map_values(g));
    } else {
        let shorter = entries.drop_last();
        lemma_lines_read_back(shorter);
        assert(entries.map_values(f).drop_last() =~= shorter.map_values(f));
        assert(entries.map_values(f).last() == line_of(entries.last()));
        lemma_line_comes_apart(entries.last());
        lemma_fields_read_back(entries.last());
        assert(entries.map_values(g) =~= shorter.map_values(g).push(kept(entries.last())));
    }
}

/// A state file that is written is read back entry by entry, with everything of each entry but
/// its command line; a tab or a line end in a text comes back as a space.
pub proof fn law_state_reads_back(entries: Seq<EntryModel>)
    ensures
        entries_of(Some(content_of(entries))) == entries.map_values(
            |entry: EntryModel| kept(entry),
        ),
{
    lemma_content_lines(entries);
    lemma_lines_read_back(entries);
    let lines = entries.map_values(|entry: EntryModel| line_of(entry));
    assert((seq!["v4"@] + lines).drop_first() =~= lines);
}

/// Writing what was read back gives the same file again.
pub proof fn law_state_is_stable(entries: Seq<EntryModel>)
    ensures
        content_of(entries.map_values(|entry: EntryModel| kept(entry))) == content_of(entries),
    decreases entries.len(),
{
    let g = |entry: EntryModel| kept(entry);
    let all = entries.map_values(g);
    if entries.len() > 0 {
        let last = entries.last();
        law_state_is_stable(entries.drop_last());
        assert(all.drop_last() =~= entries.drop_last().map_values(g));
        text::law_cleaning_is_final(last.identity);
        text::law_cleaning_is_final(last.name);
        text::law_cleaning_is_final(last.owner_name);
        text::law_cleaning_is_final(last.relation_path);
        assert(fields_of(kept(last)) =~= fields_of(last));
    }
}

/// The two entries differ in their command lines at most.
pub open spec fn same_but_command_line(a: EntryModel, b: EntryModel) -> bool {
    a == (EntryModel { command_line: a.command_line, ..b })
}

/// No command line leaves a trace in the state file: entries that differ in their command lines
/// alone are written as the same file.
pub proof fn law_command_lines_are_not_kept(a: Seq<EntryModel>, b: Seq<EntryModel>)
    requires
        a.len() == b.len(),
        forall|i: int| 0 <= i < a.len() ==> same_but_command_line(#[trigger] a[i], b[i]),
    ensures
        content_of(a) == content_of(b),
    decreases a.len(),
{
    if a.len() > 0 {
        assert(same_but_command_line(a[a.len() - 1], b[a.len() - 1]));
        assert forall|i: int| 0 <= i < a.drop_last().len() implies same_but_command_line(
            #[trigger] a.drop_last()[i],
            b.drop_last()[i],
        ) by {
            assert(same_but_command_line(a[i], b[i]));
        }
        law_command_lines_are_not_kept(a.drop_last(), b.drop_last());
        assert(fields_of(a.last()) =~= fields_of(b.last()));
    }
}

/// What a scan goes by is read back as it was written, field by field; only the command line is
/// lost.
pub proof fn law_each_field_reads_back(entries: Seq<EntryModel>, k: int)
    requires
        0 <= k < entries.len(),
    ensures
        ({
            let read = entries_of(Some(content_of(entries)));
            &&& read.len() == entries.len()
            &&& read[k].pid == entries[k].pid
            &&& read[k].parent_pid == entries[k].parent_pid
            &&& read[k].category == entries[k].category
            &&& read[k].learned_owned == entries[k].learned_owned
            &&& read[k].first_seen == entries[k].first_seen
            &&& read[k].last_seen == entries[k].last_seen
            &&& read[k].last_activity == entries[k].last_activity
            &&& read[k].cpu_ticks == entries[k].cpu_ticks
            &&& read[k].orphan_since == entries[k].orphan_since
            &&& read[k].status == entries[k].status
            &&& read[k].started == entries[k].started
            &&& read[k].owner_pid == entries[k].owner_pid
            &&& read[k].child_count == entries[k].child_count
            &&& read[k].identity == text::cleaned(entries[k].identity)
            &&& read[k].name == text::cleaned(entries[k].name)
            &&& read[k].owner_name == text::cleaned(entries[k].owner_name)
            &&& read[k].relation_path == text::cleaned(entries[k].relation_path)
            &&& read[k].command_line.len() == 0
        }),
{
    law_state_reads_back(entries);
}

/// The layout of the file: the version in the first line, then one line of eighteen fields for
/// each entry, with tabs between them and nothing in the place of the command line.
pub proof fn law_state_file_has_its_layout(entries: Seq<EntryModel>, k: int)
    requires
        0 <= k < entries.len(),
    ensures
        ({
            let lines = text::text_lines(content_of(entries));
            let fields = text::pieces(lines[k + 1], '\t');
            &&& lines.len() == entries.len() + 1
            &&& lines[0] == "v4"@
            &&& fields.len() == 18
            &&& fields[0] == text::cleaned(entries[k].identity)
            &&& decimal::number(fields[1], 0xffff_ffff) == Some(entries[k].pid as nat)
            &&& decimal::number(fields[2], 0xffff_ffff) == Some(entries[k].parent_pid as nat)
            &&& fields[3] == text::cleaned(entries[k].name)
            &&& model::category_of_key(fields[4]) == Some(entries[k].category)
            &&& fields[5] == if entries[k].learned_owned {
                "1"@
            } else {
                "0"@
            }
            &&& decimal::number(fields[6], u64::MAX as nat) == Some(entries[k].first_seen as nat)
            &&& decimal::number(fields[7], u64::MAX as nat) == Some(entries[k].last_seen as nat)
            &&& decimal::number(fields[8], u64::MAX as nat) == Some(
                entries[k].last_activity as nat,
            )
            &&& decimal::number(fields[9], u64::MAX as nat) == Some(entries[k].cpu_ticks as nat)
            &&& decimal::number(fields[10], u64::MAX as nat) == Some(
                entries[k].orphan_since as nat,
            )
            &&& model::status_of_key(fields[11]) == Some(entries[k].status)
            &&& fields[12].len() == 0
            &&& decimal::number(fields[13], u64::MAX as nat) == Some(entries[k].started as nat)
            &&& decimal::number(fields[14], 0xffff_ffff) == Some(entries[k].owner_pid as nat)
            &&& fields[15] == text::cleaned(entries[k].owner_name)
            &&& fields[16] == text::cleaned(entries[k].relation_path)
            &&& decimal::number(fields[17], usize::MAX as nat) == Some(
                entries[k].child_count as nat,
            )
        }),
{
    let entry = entries[k];
    lemma_content_lines(entries);
    lemma_line_comes_apart(entry);
    let lines = text::text_lines(content_of(entries));
    assert(lines[k + 1] == line_of(entry));
    model::law_category_key_reads_back(entry.category);
    model::law_status_key_reads_back(entry.status);
    decimal::law_decimal_reads_back(entry.pid as nat, u32::MAX as nat);
    decimal::law_decimal_reads_back(entry.parent_pid as nat, u32::MAX as nat);
    decimal::law_decimal_reads_back(entry.first_seen as nat, u64::MAX as nat);
    decimal::law_decimal_reads_back(entry.last_seen as nat, u64::MAX as nat);
    decimal::law_decimal_reads_back(entry.last_activity as nat, u64::MAX as nat);
    decimal::law_decimal_reads_back(entry.cpu_ticks as nat, u64::MAX as nat);
    decimal::law_decimal_reads_back(entry.orphan_since as nat, u64::MAX as nat);
    decimal::law_decimal_reads_back(entry.started as nat, u64::MAX as nat);
    decimal::law_decimal_reads_back(entry.owner_pid as nat, u32::MAX as nat);
    decimal::law_decimal_reads_back(entry.child_count as nat, usize::MAX as nat);
}

/// Lines are read one by one: those of two parts together hold the entries of the one and then
/// those of the other, and a single line holds at most one entry. It holds one exactly where it
/// has thirteen fields or more, a known category and status, and a number wherever one must be.
pub proof fn law_lines_are_read_one_by_one(
    a: Seq<Seq<char>>,
    b: Seq<Seq<char>>,
    line: Seq<char>,
)
    ensures
        entries_in(a + b) == entries_in(a) + entries_in(b),
        ({
            let fields = text::pieces(line, '\t');
            let good = fields.len() >= 13 && decimal::number(fields[1], 0xffff_ffff) is Some
                && decimal::number(fields[2], 0xffff_ffff) is Some && model::category_of_key(
                fields[4],
            ) is Some && decimal::number(fields[6], u64::MAX as nat) is Some && decimal::number(
                fields[7],
                u64::MAX as nat,
            ) is Some && decimal::number(fields[8], u64::MAX as nat) is Some && decimal::number(
                fields[9],
                u64::MAX as nat,
            ) is Some && decimal::number(fields[10], u64::MAX as nat) is Some
                && model::status_of_key(fields[11]) is Some;
            entries_in(seq![line]).len() == if good {
                1int
            } else {
                0int
            }
        }),
    decreases b.len(),
{
    reveal_with_fuel(entries_in, 2);
    assert(seq![line].drop_last() =~= Seq::empty());
    if b.len() == 0 {
        assert(a + b =~= a);
        assert(entries_in(a) + entries_in(b) =~= entries_in(a));
    } else {
        assert((a + b).drop_last() =~= a + b.drop_last());
        law_lines_are_read_one_by_one(a, b.drop_last(), line);
        assert(entries_in(a + b) =~= entries_in(a) + entries_in(b));
    }
}

/// What a good line holds: each field of the entry stands in its place, an entry is owned exactly
/// where its field says `1`, and what an older file does not hold yet is zero or empty.
pub proof fn law_line_says_its_entry(line: Seq<char>)
    requires
        entries_in(seq![line]).len() == 1,
    ensures
        ({
            let fields = text::pieces(line, '\t');
            let entry = entries_in(seq![line])[0];
            &&& entry.identity == fields[0]
            &&& decimal::number(fields[1], 0xffff_ffff) == Some(entry.pid as nat)
            &&& decimal::number(fields[2], 0xffff_ffff) == Some(entry.parent_pid as nat)
            &&& entry.name == fields[3]
            &&& model::category_of_key(fields[4]) == Some(entry.category)
            &&& entry.learned_owned <==> fields[5] == "1"@
            &&& decimal::number(fields[6], u64::MAX as nat) == Some(entry.first_seen as nat)
            &&& decimal::number(fields[7], u64::MAX as nat) == Some(entry.last_seen as nat)
            &&& decimal::number(fields[8], u64::MAX as nat) == Some(entry.last_activity as nat)
            &&& decimal::number(fields[9], u64::MAX as nat) == Some(entry.cpu_ticks as nat)
            &&& decimal::number(fields[10], u64::MAX as nat) == Some(entry.orphan_since as nat)
            &&& model::status_of_key(fields[11]) == Some(entry.status)
            &&& entry.command_line == fields[12]
            &&& fields.len() <= 13 ==> entry.started == 0
            &&& fields.len() <= 14 ==> entry.owner_pid == 0
            &&& fields.len() <= 15 ==> entry.owner_name.len() == 0
            &&& fields.len() <= 16 ==> entry.relation_path.len() == 0
            &&& fields.len() <= 17 ==> entry.child_count == 0
            &&& fields.len() > 13 ==> entry.started == match decimal::number(
                fields[13],
                u64::MAX as nat,
            ) {
                Some(n) => n,
                None => 0,
            }
            &&& fields.len() > 14 ==> entry.owner_pid == match decimal::number(
                fields[14],
                0xffff_ffff,
            ) {
                Some(n) => n,
                None => 0,
            }
            &&& fields.len() > 15 ==> entry.owner_name == fields[15]
            &&& fields.len() > 16 ==> entry.relation_path == fields[16]
            &&& fields.len() > 17 ==> entry.child_count == match decimal::number(
                fields[17],
                usize::MAX as nat,
            ) {
                Some(n) => n,
                None => 0,
            }
        }),
{
    reveal_with_fuel(entries_in, 2);
    let fields = text::pieces(line, '\t');
    assert(seq![line].drop_last() =~= Seq::empty());
    lemma_number_fits(fields[1], u32::MAX as nat);
    lemma_number_fits(fields[2], u32::MAX as nat);
    lemma_number_fits(fields[6], u64::MAX as nat);
    lemma_number_fits(fields[7], u64::MAX as nat);
    lemma_number_fits(fields[8], u64::MAX as nat);
    lemma_number_fits(fields[9], u64::MAX as nat);
    lemma_number_fits(fields[10], u64::MAX as nat);
    lemma_number_fits(fields[13], u64::MAX as nat);
    lemma_number_fits(fields[14], u32::MAX as nat);
    lemma_number_fits(fields[17], usize::MAX as nat);
}

proof fn lemma_number_fits(s: Seq<char>, max: nat)
    ensures
        decimal::number(s, max) matches Some(n) ==> n <= max,
{
}

/// The first line of a file is passed over, whatever it says, and a file without a line, or
/// without content, holds no entries.
pub proof fn law_first_line_is_passed_over(content: Seq<char>)
    ensures
        entries_of(None).len() == 0,
        text::text_lines(content).len() == 0 ==> entries_of(Some(content)).len() == 0,
        text::text_lines(content).len() > 0 ==> entries_of(Some(content)) == entries_in(
            text::text_lines(content).skip(1),
        ),
{
    assert(text::text_lines(content).skip(1) =~= text::text_lines(content).drop_first());
}

} // verus!
