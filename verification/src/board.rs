//! What the window holds: the entries of the last scan that succeeded, which of them the table
//! shows, and which are ticked.
use vstd::prelude::*;

use crate::dialog::{self, details_text, summary_text};
use crate::listing::{self, row_values, visible_entries};
use crate::model::{self, Entry, EntryModel};
use crate::selection::{self, Selection};
use crate::text::{self, to_lower};

verus! {

/// What the window holds.
pub struct Board {
    entries: Vec<Entry>,
    visible: Vec<usize>,
    checked: Selection,
    attention_only: bool,
    scan_error: Option<String>,
}

impl Board {
    /// The entries of the last scan that succeeded.
    pub closed spec fn models(self) -> Seq<EntryModel> {
        model::entry_models(self.entries@)
    }

    /// The positions of the entries that the table shows, row by row.
    pub closed spec fn rows(self) -> Seq<usize> {
        self.visible@
    }

    /// The ticked identities.
    pub closed spec fn ticked(self) -> Set<Seq<char>> {
        self.checked@
    }

    /// The table shows only what wants attention.
    pub closed spec fn only_attention(self) -> bool {
        self.attention_only
    }

    /// The error of the last scan, if it failed.
    pub closed spec fn error(self) -> Option<Seq<char>> {
        match self.scan_error {
            Some(error) => Some(error@),
            None => None,
        }
    }

    /// No identity is ticked twice.
    pub closed spec fn ticks_once(self) -> bool {
        self.checked.wf()
    }

    /// Every row of the table shows an entry.
    pub open spec fn wf(self) -> bool {
        &&& self.ticks_once()
        &&& forall|k: int|
            0 <= k < self.rows().len() ==> (#[trigger] self.rows()[k]) < self.models().len()
    }

    /// The entry in a row of the table. A row below zero stands for none.
    pub open spec fn row(self, row: int) -> Option<EntryModel> {
        if 0 <= row < self.rows().len() {
            Some(self.models()[self.rows()[row] as int])
        } else {
            None
        }
    }

    /// The ticks once the table was asked which rows show one.
    pub open spec fn ticks(self, shown: Seq<bool>) -> Set<Seq<char>> {
        selection::after_rows(
            self.ticked(),
            self.models(),
            self.rows(),
            shown,
            self.rows().len(),
        )
    }

    /// Nothing was scanned yet. The table shows what wants attention.
    pub fn new() -> (result: Self)
        ensures
            result.wf(),
            result.models().len() == 0,
            result.rows().len() == 0,
            result.ticked() == Set::<Seq<char>>::empty(),
            result.only_attention(),
            result.error() is None,
    {
        Board {
            entries: Vec::new(),
            visible: Vec::new(),
            checked: Selection::new(),
            attention_only: true,
            scan_error: None,
        }
    }

    /// Takes over a scan. `shown` tells which rows of the table show a tick, and `search` is
    /// what the user looks for. After a scan that failed the table stays as it is.
    pub fn refresh(&mut self, scan: Result<Vec<Entry>, String>, shown: &[bool], search: &str)
        requires
            old(self).wf(),
            shown@.len() == old(self).rows().len(),
        ensures
            final(self).wf(),
            final(self).only_attention() == old(self).only_attention(),
            match scan {
                Ok(entries) => {
                    &&& final(self).models() == model::entry_models(entries@)
                    &&& final(self).error() is None
                    &&& listing::is_table(
                        model::entry_models(entries@),
                        old(self).only_attention(),
                        text::ascii_lower(search@),
                        final(self).rows(),
                    )
                    &&& forall|identity: Seq<char>| #[trigger]
                        final(self).ticked().contains(identity) <==> old(self).ticks(
                            shown@,
                        ).contains(identity) && selection::is_identity_of(
                            model::entry_models(entries@),
                            identity,
                        )
                },
                Err(error) => {
                    &&& final(self).error() == Some(error@)
                    &&& final(self).models() == old(self).models()
                    &&& final(self).rows() == old(self).rows()
                    &&& final(self).ticked() == old(self).ticks(shown@)
                },
            },
    {
        self.sync(shown);
        match scan {
            Ok(entries) => {
                self.checked.retain(entries.as_slice());
                let lowered = to_lower(search);
                self.visible =
                visible_entries(entries.as_slice(), self.attention_only, lowered.as_str());
                self.entries = entries;
                self.scan_error = None;
            },
            Err(error) => {
                self.scan_error = Some(error);
            },
        }
    }

    /// Lets the table show what the user looks for.
    pub fn rebuild(&mut self, attention_only: bool, search: &str)
        requires
            old(self).wf(),
        ensures
            final(self).wf(),
            final(self).only_attention() == attention_only,
            final(self).models() == old(self).models(),
            final(self).ticked() == old(self).ticked(),
            final(self).error() == old(self).error(),
            listing::is_table(
                old(self).models(),
                attention_only,
                text::ascii_lower(search@),
                final(self).rows(),
            ),
    {
        self.attention_only = attention_only;
        let lowered = to_lower(search);
        self.visible = visible_entries(self.entries.as_slice(), attention_only, lowered.as_str());
    }

    /// Takes over which rows of the table show a tick.
    pub fn sync(&mut self, shown: &[bool])
        requires
            old(self).wf(),
            shown@.len() == old(self).rows().len(),
        ensures
            final(self).wf(),
            final(self).ticked() == old(self).ticks(shown@),
            final(self).models() == old(self).models(),
            final(self).rows() == old(self).rows(),
            final(self).only_attention() == old(self).only_attention(),
            final(self).error() == old(self).error(),
    {
        assert forall|k: int| 0 <= k < self.visible@.len() implies (#[trigger] self.visible@[k])
            < self.entries@.len() by {
            assert(self.rows()[k] < self.models().len());
        }
        self.checked.sync(self.entries.as_slice(), self.visible.as_slice(), shown);
    }

    /// Ticks the rows that a button ticks, and gives these rows.
    pub fn check_matching(&mut self, attention_only: bool, all_visible: bool) -> (result: Vec<
        usize,
    >)
        requires
            old(self).wf(),
        ensures
            final(self).wf(),
            final(self).ticked() == selection::after_button(
                old(self).ticked(),
                old(self).models(),
                old(self).rows(),
                attention_only,
                all_visible,
                old(self).rows().len(),
            ),
            final(self).models() == old(self).models(),
            final(self).rows() == old(self).rows(),
            final(self).only_attention() == old(self).only_attention(),
            final(self).error() == old(self).error(),
            result@ == selection::ticked_rows(
                old(self).models(),
                old(self).rows(),
                attention_only,
                all_visible,
                old(self).rows().len(),
            ),
    {
        assert forall|k: int| 0 <= k < self.visible@.len() implies (#[trigger] self.visible@[k])
            < self.entries@.len() by {
            assert(self.rows()[k] < self.models().len());
        }
        let result = self.checked.check_matching(
            self.entries.as_slice(),
            self.visible.as_slice(),
            attention_only,
            all_visible,
        );
        assert(self.rows() == old(self).rows());
        result
    }

    /// Clears all ticks.
    pub fn clear_checks(&mut self)
        requires
            old(self).wf(),
        ensures
            final(self).wf(),
            final(self).ticked() == Set::<Seq<char>>::empty(),
            final(self).models() == old(self).models(),
            final(self).rows() == old(self).rows(),
            final(self).only_attention() == old(self).only_attention(),
            final(self).error() == old(self).error(),
    {
        self.checked.clear();
        assert(self.rows() == old(self).rows());
    }

    /// The cells of a row and whether it is ticked.
    pub fn table_row(&self, row: usize, now: u64) -> (result: (Vec<String>, bool))
        requires
            self.wf(),
            row < self.rows().len(),
            self.row(row as int)->0.started != 0 ==> listing::clock_fits(now),
        ensures
            text::strings(result.0@) == listing::cells(self.row(row as int)->0, now),
            result.1 == self.ticked().contains(self.row(row as int)->0.identity),
    {
        let entry: &Entry = &self.entries[self.visible[row]];
        assert(self.row(row as int) == Some(entry@));
        (row_values(entry, now), self.checked.contains(entry.identity.as_str()))
    }

    /// The positions of the entries that the table shows, row by row.
    pub fn visible(&self) -> (result: &[usize])
        ensures
            result@ == self.rows(),
    {
        self.visible.as_slice()
    }

    /// Whether the table shows only what wants attention.
    pub fn attention_only(&self) -> (result: bool)
        ensures
            result == self.only_attention(),
    {
        self.attention_only
    }

    /// The entry at a position.
    pub fn entry(&self, position: usize) -> (result: &Entry)
        requires
            position < self.models().len(),
        ensures
            result@ == self.models()[position as int],
    {
        &self.entries[position]
    }

    /// The positions of the ticked entries, shown or not.
    pub fn selected(&self) -> (result: Vec<usize>)
        ensures
            result@ == selection::ticked_positions(self.ticked(), self.models()),
            forall|k: int| 0 <= k < result@.len() ==> (#[trigger] result@[k]) < self.models().len(),
    {
        self.checked.selected(self.entries.as_slice())
    }

    /// The details of the entry in a row, where that row shows one.
    pub fn details(&self, row: isize, now: u64) -> (result: Option<String>)
        requires
            self.wf(),
            match self.row(row as int) {
                Some(entry) => entry.started != 0 ==> listing::clock_fits(now),
                None => true,
            },
        ensures
            match self.row(row as int) {
                Some(entry) => result matches Some(text) && text@ == dialog::details(entry, now),
                None => result is None,
            },
    {
        if row < 0 || row as usize >= self.visible.len() {
            return None;
        }
        let entry: &Entry = &self.entries[self.visible[row as usize]];
        assert(self.row(row as int) == Some(entry@));
        Some(details_text(entry, now))
    }

    /// The status line.
    pub fn summary(&self, running: bool) -> (result: String)
        requires
            self.wf(),
        ensures
            result@ == match self.error() {
                Some(error) => dialog::failed_summary(error, self.models().len(), running),
                None => dialog::summary(
                    self.models(),
                    self.rows().len(),
                    self.ticked().len(),
                    running,
                ),
            },
    {
        let error: Option<&str> = match &self.scan_error {
            Some(error) => Some(error.as_str()),
            None => None,
        };
        summary_text(
            self.entries.as_slice(),
            self.visible.len(),
            self.checked.len(),
            error,
            running,
        )
    }
}

// ---------------------------------------------------------------------------------------------
// Laws
// ---------------------------------------------------------------------------------------------
/// A row shows the entry at the position that the table keeps for it. Below the last row, and
/// above the first, there is none.
pub proof fn law_rows_show_their_entries(board: Board, row: int)
    ensures
        board.row(row) is Some <==> 0 <= row && row < board.rows().len(),
        0 <= row < board.rows().len() ==> board.row(row) == Some(
            board.models()[board.rows()[row] as int],
        ),
{
}

/// An entry is ticked as its row is shown, the last one where it has several. An entry without a
/// row stays as it was.
pub proof fn law_ticks_are_those_of_the_table(
    board: Board,
    shown: Seq<bool>,
    row: int,
    hidden: Seq<char>,
)
    requires
        board.wf(),
        shown.len() == board.rows().len(),
    ensures
        0 <= row < board.rows().len() && (forall|k: int|
            row < k < board.rows().len() ==> board.models()[#[trigger] board.rows()[k] as int].identity
                != board.models()[board.rows()[row] as int].identity) ==> board.ticks(shown).contains(
            board.models()[board.rows()[row] as int].identity,
        ) == shown[row],
        (forall|k: int|
            0 <= k < board.rows().len() ==> board.models()[#[trigger] board.rows()[k] as int].identity
                != hidden) ==> board.ticks(shown).contains(hidden) == board.ticked().contains(
            hidden,
        ),
{
    let count = board.rows().len();
    if 0 <= row < count && (forall|k: int|
        row < k < count ==> board.models()[#[trigger] board.rows()[k] as int].identity
            != board.models()[board.rows()[row] as int].identity) {
        selection::law_last_row_counts(
            board.ticked(),
            board.models(),
            board.rows(),
            shown,
            count,
            row,
        );
    }
    if forall|k: int|
        0 <= k < count ==> board.models()[#[trigger] board.rows()[k] as int].identity != hidden {
        selection::law_hidden_ticks_stay(
            board.ticked(),
            board.models(),
            board.rows(),
            shown,
            count,
            hidden,
        );
    }
}

} // verus!
