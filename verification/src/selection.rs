//! Which entries the user has ticked. A tick belongs to an identity, so it survives a new scan
//! of the same process and nothing else.
use vstd::prelude::*;

use crate::listing::{self, is_attention};
use crate::model::{self, Entry, EntryModel};
use crate::text::{self, same_text};

verus! {

/// The ticked identities.
pub struct Selection {
    identities: Vec<String>,
}

impl View for Selection {
    type V = Set<Seq<char>>;

    closed spec fn view(&self) -> Set<Seq<char>> {
        text::strings(self.identities@).to_set()
    }
}

/// Some entry has the given identity.
pub open spec fn is_identity_of(entries: Seq<EntryModel>, identity: Seq<char>) -> bool {
    exists|i: int| 0 <= i < entries.len() && (#[trigger] entries[i]).identity == identity
}

/// The ticks after the first `count` rows were looked at: a row that shows a tick sets it, and
/// one that does not clears it.
pub open spec fn after_rows(
    ticks: Set<Seq<char>>,
    entries: Seq<EntryModel>,
    rows: Seq<usize>,
    shown: Seq<bool>,
    count: nat,
) -> Set<Seq<char>>
    decreases count,
{
    if count == 0 {
        ticks
    } else {
        let before = after_rows(ticks, entries, rows, shown, (count - 1) as nat);
        let identity = entries[rows[count - 1] as int].identity;
        if shown[count - 1] {
            before.insert(identity)
        } else {
            before.remove(identity)
        }
    }
}

/// A button ticks this entry: one ticks all that is visible, the other what wants attention
/// and may be ended.
pub open spec fn is_ticked_by(entry: EntryModel, attention_only: bool, all_visible: bool) -> bool {
    all_visible || (attention_only && entry.learned_owned && listing::wants_attention(entry))
}

/// The rows, among the first `count`, that a button ticks.
pub open spec fn ticked_rows(
    entries: Seq<EntryModel>,
    rows: Seq<usize>,
    attention_only: bool,
    all_visible: bool,
    count: nat,
) -> Seq<usize>
    decreases count,
{
    if count == 0 {
        Seq::empty()
    } else {
        let before = ticked_rows(entries, rows, attention_only, all_visible, (count - 1) as nat);
        if is_ticked_by(entries[rows[count - 1] as int], attention_only, all_visible) {
            before.push((count - 1) as usize)
        } else {
            before
        }
    }
}

/// The ticks after the first `count` rows were ticked by a button.
pub open spec fn after_button(
    ticks: Set<Seq<char>>,
    entries: Seq<EntryModel>,
    rows: Seq<usize>,
    attention_only: bool,
    all_visible: bool,
    count: nat,
) -> Set<Seq<char>>
    decreases count,
{
    if count == 0 {
        ticks
    } else {
        let before = after_button(
            ticks,
            entries,
            rows,
            attention_only,
            all_visible,
            (count - 1) as nat,
        );
        let entry = entries[rows[count - 1] as int];
        if is_ticked_by(entry, attention_only, all_visible) {
            before.insert(entry.identity)
        } else {
            before
        }
    }
}

/// The positions of the ticked entries.
pub open spec fn ticked_positions(ticks: Set<Seq<char>>, entries: Seq<EntryModel>) -> Seq<usize>
    decreases entries.len(),
{
    if entries.len() == 0 {
        Seq::empty()
    } else {
        let before = ticked_positions(ticks, entries.drop_last());
        if ticks.contains(entries.last().identity) {
            before.push((entries.len() - 1) as usize)
        } else {
            before
        }
    }
}

impl Selection {
    /// No identity is held twice.
    pub closed spec fn wf(self) -> bool {
        text::strings(self.identities@).no_duplicates()
    }

    /// Nothing is ticked.
    pub fn new() -> (result: Self)
        ensures
            result.wf(),
            result@ == Set::<Seq<char>>::empty(),
    {
        let result = Selection { identities: Vec::new() };
        assert(result@ =~= Set::empty());
        result
    }

    /// The place of an identity.
    fn find(&self, identity: &str) -> (result: Option<usize>)
        ensures
            match result {
                Some(at) => at < self.identities@.len() && self.identities@[at as int]@
                    == identity@,
                None => !self@.contains(identity@),
            },
    {
        for i in 0..self.identities.len()
            invariant
                forall|j: int|
                    0 <= j < i ==> (#[trigger] self.identities@[j])@ != identity@,
        {
            if same_text(self.identities[i].as_str(), identity) {
                return Some(i);
            }
        }
        None
    }

    /// Whether the identity is ticked.
    pub fn contains(&self, identity: &str) -> (result: bool)
        ensures
            result == self@.contains(identity@),
    {
        match self.find(identity) {
            Some(at) => {
                assert(text::strings(self.identities@)[at as int] == identity@);
                true
            },
            None => false,
        }
    }

    /// Ticks the identity.
    pub fn insert(&mut self, identity: &str)
        requires
            old(self).wf(),
        ensures
            final(self).wf(),
            final(self)@ == old(self)@.insert(identity@),
    {
        let ghost before = text::strings(self.identities@);
        if self.contains(identity) {
            assert(self@ =~= old(self)@.insert(identity@));
        } else {
            self.identities.push(identity.to_owned());
            let ghost after = text::strings(self.identities@);
            assert(after =~= before.push(identity@));
            assert(after.to_set() =~= before.to_set().insert(identity@)) by {
                assert forall|id: Seq<char>| after.contains(id) <==> before.contains(id) || id
                    == identity@ by {
                    if before.contains(id) {
                        let k = choose|k: int| 0 <= k < before.len() && before[k] == id;
                        assert(after[k] == id);
                    }
                    assert(after[before.len() as int] == identity@);
                }
            }
            assert(!before.contains(identity@));
        }
    }

    /// Clears the tick of the identity.
    pub fn remove(&mut self, identity: &str)
        requires
            old(self).wf(),
        ensures
            final(self).wf(),
            final(self)@ == old(self)@.remove(identity@),
    {
        let ghost before = text::strings(self.identities@);
        match self.find(identity) {
            Some(at) => {
                self.identities.remove(at);
                let ghost after = text::strings(self.identities@);
                assert(before[at as int] == identity@);
                assert forall|k: int| 0 <= k < after.len() implies #[trigger] after[k] == if k < at {
                    before[k]
                } else {
                    before[k + 1]
                } by {}
                assert(after.to_set() =~= before.to_set().remove(identity@)) by {
                    assert forall|id: Seq<char>| after.contains(id) <==> before.contains(id) && id
                        != identity@ by {
                        if after.contains(id) {
                            let k = choose|k: int| 0 <= k < after.len() && after[k] == id;
                            let m = if k < at { k } else { k + 1 };
                            assert(before[m] == id);
                        }
                        if before.contains(id) && id != identity@ {
                            let k = choose|k: int| 0 <= k < before.len() && before[k] == id;
                            let m = if k < at { k } else { k - 1 };
                            assert(after[m] == id);
                        }
                    }
                }
                assert forall|i: int, j: int|
                    0 <= i < after.len() && 0 <= j < after.len() && i != j implies after[i]
                    != after[j] by {
                    let m = if i < at { i } else { i + 1 };
                    let n = if j < at { j } else { j + 1 };
                    assert(before[m] != before[n]);
                }
            },
            None => {
                assert(self@ =~= old(self)@.remove(identity@));
            },
        }
    }

    /// Clears all ticks.
    pub fn clear(&mut self)
        ensures
            final(self).wf(),
            final(self)@ == Set::<Seq<char>>::empty(),
    {
        self.identities = Vec::new();
        assert(self@ =~= Set::empty());
    }

    /// The number of ticks.
    pub fn len(&self) -> (result: usize)
        requires
            self.wf(),
        ensures
            result == self@.len(),
    {
        proof {
            text::strings(self.identities@).unique_seq_to_set();
        }
        self.identities.len()
    }

    /// Clears the ticks of identities that no entry has any more.
    pub fn retain(&mut self, entries: &[Entry])
        requires
            old(self).wf(),
        ensures
            final(self).wf(),
            forall|identity: Seq<char>| #[trigger]
                final(self)@.contains(identity) <==> old(self)@.contains(identity)
                    && is_identity_of(model::entry_models(entries@), identity),
    {
        let ghost models = model::entry_models(entries@);
        let ghost all = text::strings(self.identities@);
        let mut kept = Selection::new();
        for i in 0..self.identities.len()
            invariant
                models == model::entry_models(entries@),
                all == text::strings(self.identities@),
                kept.wf(),
                forall|identity: Seq<char>| #[trigger]
                    kept@.contains(identity) <==> all.take(i as int).contains(identity)
                        && is_identity_of(models, identity),
        {
            let ghost before = all.take(i as int);
            let ghost after = all.take(i + 1);
            let ghost so_far = kept@;
            let valid = has_identity(entries, self.identities[i].as_str());
            let identity: &String = &self.identities[i];
            assert(all[i as int] == identity@);
            if valid {
                kept.insert(identity.as_str());
            }
            assert forall|id: Seq<char>| #[trigger] kept@.contains(id) <==> after.contains(id)
                && is_identity_of(models, id) by {
                assert(after.contains(id) <==> before.contains(id) || id == identity@) by {
                    if before.contains(id) {
                        let k = choose|k: int| 0 <= k < before.len() && before[k] == id;
                        assert(after[k] == id);
                    }
                    assert(after[i as int] == identity@);
                    if after.contains(id) {
                        let k = choose|k: int| 0 <= k < after.len() && after[k] == id;
                        if k < i {
                            assert(before[k] == id);
                        }
                    }
                }
                assert(so_far.contains(id) <==> before.contains(id) && is_identity_of(models, id));
            }
        }
        assert(all.take(all.len() as int) =~= all);
        self.identities = kept.identities;
    }

    /// Takes over what the rows of the table show.
    pub fn sync(&mut self, entries: &[Entry], rows: &[usize], shown: &[bool])
        requires
            old(self).wf(),
            rows@.len() == shown@.len(),
            forall|k: int| 0 <= k < rows@.len() ==> (#[trigger] rows@[k]) < entries@.len(),
        ensures
            final(self).wf(),
            final(self)@ == after_rows(
                old(self)@,
                model::entry_models(entries@),
                rows@,
                shown@,
                rows@.len(),
            ),
    {
        let ghost models = model::entry_models(entries@);
        let ghost start = self@;
        for i in 0..rows.len()
            invariant
                self.wf(),
                rows@.len() == shown@.len(),
                forall|k: int| 0 <= k < rows@.len() ==> (#[trigger] rows@[k]) < entries@.len(),
                models == model::entry_models(entries@),
                self@ == after_rows(start, models, rows@, shown@, i as nat),
        {
            let entry: &Entry = &entries[rows[i]];
            assert(models[rows@[i as int] as int] == entry@);
            if shown[i] {
                self.insert(entry.identity.as_str());
            } else {
                self.remove(entry.identity.as_str());
            }
        }
    }

    /// Ticks the rows that a button ticks, and gives these rows.
    pub fn check_matching(
        &mut self,
        entries: &[Entry],
        rows: &[usize],
        attention_only: bool,
        all_visible: bool,
    ) -> (result: Vec<usize>)
        requires
            old(self).wf(),
            forall|k: int| 0 <= k < rows@.len() ==> (#[trigger] rows@[k]) < entries@.len(),
        ensures
            final(self).wf(),
            final(self)@ == after_button(
                old(self)@,
                model::entry_models(entries@),
                rows@,
                attention_only,
                all_visible,
                rows@.len(),
            ),
            result@ == ticked_rows(
                model::entry_models(entries@),
                rows@,
                attention_only,
                all_visible,
                rows@.len(),
            ),
    {
        let ghost models = model::entry_models(entries@);
        let ghost start = self@;
        let mut result: Vec<usize> = Vec::new();
        for i in 0..rows.len()
            invariant
                self.wf(),
                forall|k: int| 0 <= k < rows@.len() ==> (#[trigger] rows@[k]) < entries@.len(),
                models == model::entry_models(entries@),
                self@ == after_button(
                    start,
                    models,
                    rows@,
                    attention_only,
                    all_visible,
                    i as nat,
                ),
                result@ == ticked_rows(models, rows@, attention_only, all_visible, i as nat),
        {
            let entry: &Entry = &entries[rows[i]];
            assert(models[rows@[i as int] as int] == entry@);
            if all_visible || (attention_only && entry.learned_owned && is_attention(entry)) {
                self.insert(entry.identity.as_str());
                result.push(i);
            }
        }
        result
    }

    /// The positions of the ticked entries.
    pub fn selected(&self, entries: &[Entry]) -> (result: Vec<usize>)
        ensures
            result@ == ticked_positions(self@, model::entry_models(entries@)),
            forall|k: int| 0 <= k < result@.len() ==> (#[trigger] result@[k]) < entries@.len(),
    {
        let ghost models = model::entry_models(entries@);
        let mut result: Vec<usize> = Vec::new();
        assert(models.take(0) =~= Seq::empty());
        for i in 0..entries.len()
            invariant
                models == model::entry_models(entries@),
                result@ == ticked_positions(self@, models.take(i as int)),
                forall|k: int| 0 <= k < result@.len() ==> (#[trigger] result@[k]) < i,
        {
            assert(models.take(i + 1).drop_last() =~= models.take(i as int));
            assert(models.take(i + 1).last() == entries@[i as int]@);
            if self.contains(entries[i].identity.as_str()) {
                result.push(i);
            }
        }
        assert(models.take(entries@.len() as int) =~= models);
        result
    }
}

/// Whether some entry has the given identity.
fn has_identity(entries: &[Entry], identity: &str) -> (result: bool)
    ensures
        result == is_identity_of(model::entry_models(entries@), identity@),
{
    let ghost models = model::entry_models(entries@);
    for i in 0..entries.len()
        invariant
            models == model::entry_models(entries@),
            forall|j: int| 0 <= j < i ==> (#[trigger] models[j]).identity != identity@,
    {
        assert(models[i as int] == entries@[i as int]@);
        if same_text(entries[i].identity.as_str(), identity) {
            return true;
        }
    }
    false
}

// ---------------------------------------------------------------------------------------------
// Laws
// ---------------------------------------------------------------------------------------------
/// The button for what wants attention never ticks an entry that would be refused for want of
/// an owner.
pub proof fn law_attention_button_ticks_owned_entries(entry: EntryModel)
    requires
        is_ticked_by(entry, true, false),
    ensures
        entry.learned_owned,
        listing::wants_attention(entry),
        crate::terminate::refusal(entry, false) is None,
{
}

/// What the table does not show keeps its tick.
pub proof fn law_hidden_ticks_stay(
    ticks: Set<Seq<char>>,
    entries: Seq<EntryModel>,
    rows: Seq<usize>,
    shown: Seq<bool>,
    count: nat,
    identity: Seq<char>,
)
    requires
        count <= rows.len(),
        forall|k: int| 0 <= k < count ==> entries[#[trigger] rows[k] as int].identity != identity,
    ensures
        after_rows(ticks, entries, rows, shown, count).contains(identity) == ticks.contains(
            identity,
        ),
    decreases count,
{
    if count > 0 {
        law_hidden_ticks_stay(ticks, entries, rows, shown, (count - 1) as nat, identity);
        assert(entries[rows[count - 1] as int].identity != identity);
    }
}

/// What the table shows is ticked as it is shown, where no two rows have one identity.
pub proof fn law_rows_tell_their_ticks(
    ticks: Set<Seq<char>>,
    entries: Seq<EntryModel>,
    rows: Seq<usize>,
    shown: Seq<bool>,
    count: nat,
    row: int,
)
    requires
        count <= rows.len(),
        0 <= row < count,
        forall|j: int, k: int|
            0 <= j < k < count ==> entries[#[trigger] rows[j] as int].identity
                != entries[#[trigger] rows[k] as int].identity,
    ensures
        after_rows(ticks, entries, rows, shown, count).contains(
            entries[rows[row] as int].identity,
        ) == shown[row],
    decreases count,
{
    if row < count - 1 {
        law_rows_tell_their_ticks(ticks, entries, rows, shown, (count - 1) as nat, row);
        assert(entries[rows[row] as int].identity != entries[rows[count - 1] as int].identity);
    }
}

/// A button clears no tick, and sets those of the rows that it ticks.
pub proof fn law_button_only_sets_ticks(
    ticks: Set<Seq<char>>,
    entries: Seq<EntryModel>,
    rows: Seq<usize>,
    attention_only: bool,
    all_visible: bool,
    count: nat,
    identity: Seq<char>,
)
    requires
        count <= rows.len(),
    ensures
        after_button(ticks, entries, rows, attention_only, all_visible, count).contains(identity)
            <==> ticks.contains(identity) || exists|k: int|
            0 <= k < count && entries[#[trigger] rows[k] as int].identity == identity
                && is_ticked_by(entries[rows[k] as int], attention_only, all_visible),
    decreases count,
{
    if count > 0 {
        law_button_only_sets_ticks(
            ticks,
            entries,
            rows,
            attention_only,
            all_visible,
            (count - 1) as nat,
            identity,
        );
        assert(rows[count - 1] == rows[count - 1]);
    }
}

/// Selected is what is ticked, shown or not.
pub proof fn law_selected_is_ticked(ticks: Set<Seq<char>>, entries: Seq<EntryModel>, i: usize)
    requires
        entries.len() <= usize::MAX,
    ensures
        ticked_positions(ticks, entries).contains(i) <==> i < entries.len() && ticks.contains(
            entries[i as int].identity,
        ),
    decreases entries.len(),
{
    if entries.len() > 0 {
        law_selected_is_ticked(ticks, entries.drop_last(), i);
        let before = ticked_positions(ticks, entries.drop_last());
        let last = (entries.len() - 1) as usize;
        if ticks.contains(entries.last().identity) {
            let after = before.push(last);
            assert(after[before.len() as int] == last);
            if before.contains(i) {
                let k = choose|k: int| 0 <= k < before.len() && before[k] == i;
                assert(after[k] == i);
            }
        }
        if i < last {
            assert(entries.drop_last()[i as int] == entries[i as int]);
        }
    }
}

/// What the two buttons tick: the one everything in sight, the other what wants attention and may
/// be ended.
pub proof fn law_buttons_tick_what_they_say(entry: EntryModel)
    ensures
        is_ticked_by(entry, false, true),
        is_ticked_by(entry, true, false) <==> entry.learned_owned && !(entry.status is Owned),
        !is_ticked_by(entry, false, false),
{
}

/// The rows that a button ticks are exactly those whose entries it ticks.
pub proof fn law_ticked_rows_are_those_of_the_button(
    entries: Seq<EntryModel>,
    rows: Seq<usize>,
    attention_only: bool,
    all_visible: bool,
    count: nat,
    row: usize,
)
    requires
        count <= rows.len(),
        rows.len() <= usize::MAX,
    ensures
        ticked_rows(entries, rows, attention_only, all_visible, count).contains(row) <==> row < count
            && is_ticked_by(entries[rows[row as int] as int], attention_only, all_visible),
    decreases count,
{
    if count > 0 {
        let before = ticked_rows(entries, rows, attention_only, all_visible, (count - 1) as nat);
        let all = ticked_rows(entries, rows, attention_only, all_visible, count);
        law_ticked_rows_are_those_of_the_button(
            entries,
            rows,
            attention_only,
            all_visible,
            (count - 1) as nat,
            row,
        );
        if all.len() > before.len() {
            assert(all[before.len() as int] == (count - 1) as usize);
            if before.contains(row) {
                let k = choose|k: int| 0 <= k < before.len() && before[k] == row;
                assert(all[k] == row);
            }
        }
    }
}

/// An identity is that of some entry exactly where it is that of one of two parts, and of a single
/// entry where it is its own.
pub proof fn law_identities_are_those_of_the_entries(
    a: Seq<EntryModel>,
    b: Seq<EntryModel>,
    entry: EntryModel,
    identity: Seq<char>,
)
    ensures
        is_identity_of(a + b, identity) <==> is_identity_of(a, identity) || is_identity_of(
            b,
            identity,
        ),
        is_identity_of(seq![entry], identity) <==> entry.identity == identity,
        !is_identity_of(Seq::empty(), identity),
{
    let both = a + b;
    if is_identity_of(a, identity) {
        let i = choose|i: int| 0 <= i < a.len() && (#[trigger] a[i]).identity == identity;
        assert(both[i] == a[i]);
    }
    if is_identity_of(b, identity) {
        let i = choose|i: int| 0 <= i < b.len() && (#[trigger] b[i]).identity == identity;
        assert(both[a.len() + i] == b[i]);
    }
    if is_identity_of(both, identity) {
        let i = choose|i: int| 0 <= i < both.len() && (#[trigger] both[i]).identity == identity;
        if i < a.len() {
            assert(a[i] == both[i]);
        } else {
            assert(b[i - a.len()] == both[i]);
        }
    }
    assert(seq![entry][0] == entry);
}

/// Where several rows have one identity, it is ticked as the last of them is shown.
pub proof fn law_last_row_counts(
    ticks: Set<Seq<char>>,
    entries: Seq<EntryModel>,
    rows: Seq<usize>,
    shown: Seq<bool>,
    count: nat,
    row: int,
)
    requires
        count <= rows.len(),
        0 <= row < count,
        forall|k: int|
            row < k < count ==> entries[#[trigger] rows[k] as int].identity
                != entries[rows[row] as int].identity,
    ensures
        after_rows(ticks, entries, rows, shown, count).contains(
            entries[rows[row] as int].identity,
        ) == shown[row],
    decreases count,
{
    if row < count - 1 {
        law_last_row_counts(ticks, entries, rows, shown, (count - 1) as nat, row);
        assert(entries[rows[count - 1] as int].identity != entries[rows[row] as int].identity);
    }
}

} // verus!
