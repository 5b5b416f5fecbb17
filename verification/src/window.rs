//! The window: where its controls stand, what its columns are, and what its messages ask for.
use vstd::prelude::*;

use crate::listing;
use crate::model::EntryModel;

verus! {

pub const ID_TABLE: i32 = 100;

pub const ID_DETAILS: i32 = 101;

pub const ID_REFRESH: i32 = 102;

pub const ID_START: i32 = 103;

pub const ID_STOP: i32 = 104;

pub const ID_TERMINATE: i32 = 105;

pub const ID_LOG: i32 = 106;

pub const ID_ATTENTION: i32 = 107;

pub const ID_STATUS: i32 = 108;

pub const ID_SEARCH: i32 = 109;

pub const ID_SEARCH_LABEL: i32 = 110;

pub const ID_SELECT_ATTENTION: i32 = 111;

pub const ID_SELECT_VISIBLE: i32 = 112;

pub const ID_CLEAR_CHECKS: i32 = 113;

pub const ID_HINT: i32 = 114;

/// An edit control tells that its text has changed.
pub const EN_CHANGE: u32 = 0x300;

/// A table tells that an item has changed.
pub const LVN_ITEMCHANGED: u32 = 0xffff_ff9b;

/// A table tells that it was clicked.
pub const NM_CLICK: u32 = 0xffff_fffe;

/// The state of a row without a tick.
pub const STATE_IMAGE_UNCHECKED: u32 = 0x1000;

/// The state of a row with a tick.
pub const STATE_IMAGE_CHECKED: u32 = 0x2000;

/// The least width that the controls are laid out for.
pub const LEAST_WIDTH: i32 = 920;

/// The least height that the controls are laid out for.
pub const LEAST_HEIGHT: i32 = 600;

/// Where a control stands.
#[derive(Clone, Copy, Debug, PartialEq, Eq, Structural)]
pub struct Placement {
    pub id: i32,
    pub x: i32,
    pub y: i32,
    pub width: i32,
    pub height: i32,
}

/// A column of the table.
#[derive(Clone, Copy, Debug)]
pub struct Column {
    pub title: &'static str,
    pub width: i32,
    pub right_aligned: bool,
}

/// What a control asks for.
#[derive(Clone, Copy, Debug, PartialEq, Eq, Structural)]
pub enum Command {
    Refresh,
    StartWatch,
    StopWatch,
    Terminate,
    OpenLog,
    CheckAttention,
    CheckVisible,
    ClearChecks,
    Filter,
    Search,
    Nothing,
}

// ---------------------------------------------------------------------------------------------
// Models
// ---------------------------------------------------------------------------------------------
/// The greater of two numbers.
pub open spec fn greater(a: int, b: int) -> int {
    if a >= b {
        a
    } else {
        b
    }
}

/// The buttons from left to right, with their widths.
pub open spec fn buttons() -> Seq<(i32, i32)> {
    seq![
        (ID_REFRESH, 72),
        (ID_START, 92),
        (ID_STOP, 92),
        (ID_LOG, 82),
        (ID_SELECT_ATTENTION, 108),
        (ID_SELECT_VISIBLE, 92),
        (ID_CLEAR_CHECKS, 92),
        (ID_TERMINATE, 142),
    ]
}

/// Where the button after the first `count` ones starts: there are gaps of eight.
pub open spec fn button_left(count: nat) -> int
    decreases count,
{
    if count == 0 {
        10
    } else {
        button_left((count - 1) as nat) + buttons()[count - 1].1 + 8
    }
}

/// Where the first `count` buttons stand.
pub open spec fn button_row(count: nat) -> Seq<Placement> {
    Seq::new(
        count,
        |i: int| placed(buttons()[i].0, button_left(i as nat), 72, buttons()[i].1 as int, 30),
    )
}

/// A placement from whole numbers.
pub open spec fn placed(id: i32, x: int, y: int, width: int, height: int) -> Placement {
    Placement { id, x: x as i32, y: y as i32, width: width as i32, height: height as i32 }
}

/// The height of the details in a window of the given height.
pub open spec fn details_height(height: int) -> int {
    if height / 3 < 210 {
        height / 3
    } else {
        210
    }
}

/// The height of the table in a window of the given height.
pub open spec fn table_height(height: int) -> int {
    height - 130 - details_height(height)
}

/// Where the controls stand in a window whose inner size is given.
pub open spec fn placements(right: i32, bottom: i32) -> Seq<Placement> {
    let width = greater(right as int, LEAST_WIDTH as int);
    let height = greater(bottom as int, LEAST_HEIGHT as int);
    let end = button_left(buttons().len());
    seq![
        placed(ID_STATUS, 10, 8, width - 20, 24),
        placed(ID_SEARCH_LABEL, 10, 39, 64, 26),
        placed(ID_SEARCH, 68, 37, 280, 28),
        placed(ID_ATTENTION, 360, 39, 120, 26),
    ] + button_row(buttons().len()) + seq![
        placed(ID_HINT, end + 4, 77, greater(width - end - 14, 120), 22),
        placed(ID_TABLE, 10, 110, width - 20, table_height(height)),
        placed(
            ID_DETAILS,
            10,
            118 + table_height(height),
            width - 20,
            details_height(height),
        ),
    ]
}

/// The titles of the columns.
pub open spec fn column_titles() -> Seq<Seq<char>> {
    seq![
        "风险"@,
        "状态"@,
        "PID"@,
        "进程"@,
        "类型"@,
        "归属宿主"@,
        "父 PID"@,
        "子进程"@,
        "运行时长"@,
        "闲置时长"@,
    ]
}

/// The widths of the columns.
pub open spec fn column_widths() -> Seq<i32> {
    seq![62, 118, 76, 165, 125, 170, 78, 72, 110, 110]
}

/// The column holds numbers and stands to the right.
pub open spec fn holds_numbers(index: int) -> bool {
    index == 2 || index == 6 || index == 7
}

/// The control that sent a command: the low half of its parameter.
pub open spec fn sender(parameter: usize) -> int {
    parameter as int % 0x10000
}

/// What the control tells: the high half of the parameter.
pub open spec fn notice(parameter: usize) -> int {
    parameter as int / 0x10000 % 0x10000
}

/// What the parameter of a command asks for.
pub open spec fn command_of(parameter: usize) -> Command {
    let id = sender(parameter);
    if id == ID_REFRESH {
        Command::Refresh
    } else if id == ID_START {
        Command::StartWatch
    } else if id == ID_STOP {
        Command::StopWatch
    } else if id == ID_TERMINATE {
        Command::Terminate
    } else if id == ID_LOG {
        Command::OpenLog
    } else if id == ID_SELECT_ATTENTION {
        Command::CheckAttention
    } else if id == ID_SELECT_VISIBLE {
        Command::CheckVisible
    } else if id == ID_CLEAR_CHECKS {
        Command::ClearChecks
    } else if id == ID_ATTENTION {
        Command::Filter
    } else if id == ID_SEARCH && notice(parameter) == EN_CHANGE {
        Command::Search
    } else {
        Command::Nothing
    }
}

/// The state of a row of the table, with or without a tick.
pub open spec fn state_of(checked: bool) -> u32 {
    if checked {
        STATE_IMAGE_CHECKED
    } else {
        STATE_IMAGE_UNCHECKED
    }
}

/// The state of a row says that it shows a tick. The bits from the twelfth to the fifteenth
/// tell it, whatever the others are.
pub open spec fn shows_tick(state: u32) -> bool {
    state as int / 0x1000 % 0x10 == STATE_IMAGE_CHECKED as int / 0x1000
}

// ---------------------------------------------------------------------------------------------
// Functions
// ---------------------------------------------------------------------------------------------
/// The buttons from left to right, with their widths.
fn button_list() -> (result: Vec<(i32, i32)>)
    ensures
        result@ == buttons(),
{
    vec![
        (ID_REFRESH, 72),
        (ID_START, 92),
        (ID_STOP, 92),
        (ID_LOG, 82),
        (ID_SELECT_ATTENTION, 108),
        (ID_SELECT_VISIBLE, 92),
        (ID_CLEAR_CHECKS, 92),
        (ID_TERMINATE, 142),
    ]
}

/// Where the controls stand in a window whose inner size is given.
pub fn layout(right: i32, bottom: i32) -> (result: Vec<Placement>)
    ensures
        result@ == placements(right, bottom),
{
    let width: i32 = if right >= LEAST_WIDTH {
        right
    } else {
        LEAST_WIDTH
    };
    let height: i32 = if bottom >= LEAST_HEIGHT {
        bottom
    } else {
        LEAST_HEIGHT
    };
    let mut result: Vec<Placement> = Vec::new();
    result.push(Placement { id: ID_STATUS, x: 10, y: 8, width: width - 20, height: 24 });
    result.push(Placement { id: ID_SEARCH_LABEL, x: 10, y: 39, width: 64, height: 26 });
    result.push(Placement { id: ID_SEARCH, x: 68, y: 37, width: 280, height: 28 });
    result.push(Placement { id: ID_ATTENTION, x: 360, y: 39, width: 120, height: 26 });
    let ghost head = result@;
    let list = button_list();
    let mut x: i32 = 10;
    assert(head + button_row(0) =~= head);
    for i in 0..list.len()
        invariant
            list@ == buttons(),
            x == button_left(i as nat),
            10 <= x <= 10 + 200 * i,
            result@ == head + button_row(i as nat),
    {
        let ghost before = result@;
        result.push(Placement { id: list[i].0, x, y: 72, width: list[i].1, height: 30 });
        assert(button_row((i + 1) as nat) =~= button_row(i as nat).push(result@.last()));
        assert(result@ =~= head + button_row((i + 1) as nat));
        x = x + list[i].1 + 8;
    }
    proof {
        lemma_buttons_end();
    }
    let rest: i32 = width - x - 14;
    let hint: i32 = if rest >= 120 {
        rest
    } else {
        120
    };
    let third: i32 = height / 3;
    let details: i32 = if third < 210 {
        third
    } else {
        210
    };
    let table: i32 = height - 130 - details;
    result.push(Placement { id: ID_HINT, x: x + 4, y: 77, width: hint, height: 22 });
    result.push(Placement { id: ID_TABLE, x: 10, y: 110, width: width - 20, height: table });
    result.push(
        Placement {
            id: ID_DETAILS,
            x: 10,
            y: 118 + table,
            width: width - 20,
            height: details,
        },
    );
    assert(result@ =~= placements(right, bottom));
    result
}

/// The columns of the table.
pub fn columns() -> (result: Vec<Column>)
    ensures
        result@.len() == column_titles().len(),
        forall|i: int|
            0 <= i < result@.len() ==> {
                &&& (#[trigger] result@[i]).title@ == column_titles()[i]
                &&& result@[i].width == column_widths()[i]
                &&& result@[i].right_aligned == holds_numbers(i)
            },
{
    vec![
        Column { title: "风险", width: 62, right_aligned: false },
        Column { title: "状态", width: 118, right_aligned: false },
        Column { title: "PID", width: 76, right_aligned: true },
        Column { title: "进程", width: 165, right_aligned: false },
        Column { title: "类型", width: 125, right_aligned: false },
        Column { title: "归属宿主", width: 170, right_aligned: false },
        Column { title: "父 PID", width: 78, right_aligned: true },
        Column { title: "子进程", width: 72, right_aligned: true },
        Column { title: "运行时长", width: 110, right_aligned: false },
        Column { title: "闲置时长", width: 110, right_aligned: false },
    ]
}

/// What the parameter of a command asks for.
pub fn command(parameter: usize) -> (result: Command)
    ensures
        result == command_of(parameter),
{
    let id: i32 = (parameter % 0x10000) as i32;
    let notify: u32 = (parameter / 0x10000 % 0x10000) as u32;
    if id == ID_REFRESH {
        Command::Refresh
    } else if id == ID_START {
        Command::StartWatch
    } else if id == ID_STOP {
        Command::StopWatch
    } else if id == ID_TERMINATE {
        Command::Terminate
    } else if id == ID_LOG {
        Command::OpenLog
    } else if id == ID_SELECT_ATTENTION {
        Command::CheckAttention
    } else if id == ID_SELECT_VISIBLE {
        Command::CheckVisible
    } else if id == ID_CLEAR_CHECKS {
        Command::ClearChecks
    } else if id == ID_ATTENTION {
        Command::Filter
    } else if id == ID_SEARCH && notify == EN_CHANGE {
        Command::Search
    } else {
        Command::Nothing
    }
}

/// The notice comes from the table and says that a row changed or was clicked, and the table is
/// not being filled.
pub open spec fn tells_of_user(from: usize, code: u32, updating: bool) -> bool {
    from == ID_TABLE && (code == LVN_ITEMCHANGED || code == NM_CLICK) && !updating
}

/// Whether a notice says that the user did something to the table. While the table is being
/// filled, its notices say nothing.
pub fn is_table_event(from: usize, code: u32, updating: bool) -> (result: bool)
    ensures
        result == tells_of_user(from, code, updating),
        result == (from == ID_TABLE && (code == LVN_ITEMCHANGED || code == NM_CLICK) && !updating),
{
    from == ID_TABLE as usize && (code == LVN_ITEMCHANGED || code == NM_CLICK) && !updating
}

/// The state of a row of the table, with or without a tick.
pub fn row_state(checked: bool) -> (result: u32)
    ensures
        result == state_of(checked),
{
    if checked {
        STATE_IMAGE_CHECKED
    } else {
        STATE_IMAGE_UNCHECKED
    }
}

/// Whether the state of a row says that it shows a tick.
pub fn is_row_checked(state: u32) -> (result: bool)
    ensures
        result == shows_tick(state),
{
    state / 0x1000 % 0x10 == 2
}

// ---------------------------------------------------------------------------------------------
// Lemmas and laws
// ---------------------------------------------------------------------------------------------
/// Where the row of buttons ends.
proof fn lemma_buttons_end()
    ensures
        buttons().len() == 8,
        button_left(8) == 846,
{
    reveal_with_fuel(button_left, 9);
}

/// The table and the details fill the window below the buttons, one below the other, and
/// neither vanishes.
pub proof fn law_table_and_details_fill_the_window(right: i32, bottom: i32)
    ensures
        ({
            let all = placements(right, bottom);
            let table = all[13];
            let details = all[14];
            &&& all.len() == 15
            &&& table.id == ID_TABLE && details.id == ID_DETAILS
            &&& table.height >= 260 && details.height >= 200
            &&& table.y + table.height + 8 == details.y
            &&& details.y + details.height + 12 == greater(bottom as int, LEAST_HEIGHT as int)
            &&& table.x + table.width + 10 == greater(right as int, LEAST_WIDTH as int)
            &&& details.x == table.x && details.width == table.width
        }),
{
    lemma_buttons_end();
    assert(button_row(8).len() == 8);
}

/// Every control has its place, and only one.
pub proof fn law_every_control_is_placed_once(right: i32, bottom: i32, id: i32)
    requires
        ID_TABLE <= id <= ID_HINT,
    ensures
        exists|i: int|
            0 <= i < placements(right, bottom).len() && (#[trigger] placements(right, bottom)[i]).id
                == id,
        forall|i: int, j: int|
            0 <= i < j < placements(right, bottom).len() ==> (#[trigger] placements(
                right,
                bottom,
            )[i]).id != (#[trigger] placements(right, bottom)[j]).id,
{
    lemma_buttons_end();
    let all = placements(right, bottom);
    let row = button_row(8);
    assert(row.len() == 8 && all.len() == 15);
    assert(all[0].id == ID_STATUS && all[1].id == ID_SEARCH_LABEL && all[2].id == ID_SEARCH
        && all[3].id == ID_ATTENTION);
    assert(all[4] == row[0] && all[5] == row[1] && all[6] == row[2] && all[7] == row[3]);
    assert(all[8] == row[4] && all[9] == row[5] && all[10] == row[6] && all[11] == row[7]);
    assert(row[0].id == ID_REFRESH && row[1].id == ID_START && row[2].id == ID_STOP);
    assert(row[3].id == ID_LOG && row[4].id == ID_SELECT_ATTENTION && row[5].id
        == ID_SELECT_VISIBLE);
    assert(row[6].id == ID_CLEAR_CHECKS && row[7].id == ID_TERMINATE);
    assert(all[12].id == ID_HINT && all[13].id == ID_TABLE && all[14].id == ID_DETAILS);
}

/// The table has one column for each cell of a row.
pub proof fn law_one_column_for_each_cell(entry: EntryModel, now: u64)
    ensures
        listing::cells(entry, now).len() == column_titles().len(),
        column_widths().len() == column_titles().len(),
{
}

/// A row shows a tick where its state was set to one, and only there.
pub proof fn law_row_state_reads_back(checked: bool)
    ensures
        shows_tick(state_of(checked)) == checked,
{
}

/// The buttons stand in one row from the left margin on, each eight to the right of the one before
/// it.
pub proof fn law_buttons_stand_in_a_row(right: i32, bottom: i32, i: int)
    requires
        0 <= i < 8,
    ensures
        ({
            let all = placements(right, bottom);
            let button = all[4 + i];
            &&& button.y == 72 && button.height == 30
            &&& i == 0 ==> button.x == 10
            &&& i > 0 ==> button.x == all[3 + i].x + all[3 + i].width + 8
            &&& button.id == ID_REFRESH ==> i == 0 && button.width == 72
            &&& button.id == ID_START ==> i == 1 && button.width == 92
            &&& button.id == ID_STOP ==> i == 2 && button.width == 92
            &&& button.id == ID_LOG ==> i == 3 && button.width == 82
            &&& button.id == ID_SELECT_ATTENTION ==> i == 4 && button.width == 108
            &&& button.id == ID_SELECT_VISIBLE ==> i == 5 && button.width == 92
            &&& button.id == ID_CLEAR_CHECKS ==> i == 6 && button.width == 92
            &&& button.id == ID_TERMINATE ==> i == 7 && button.width == 142
        }),
{
    lemma_buttons_end();
    lemma_buttons_fit(i);
    let all = placements(right, bottom);
    let row = button_row(8);
    assert(all[4 + i] == row[i]);
    if i > 0 {
        lemma_buttons_fit(i - 1);
        assert(all[4 + (i - 1)] == row[i - 1]);
        assert(all[3 + i] == row[i - 1]);
        assert(button_left(i as nat) == button_left((i - 1) as nat) + buttons()[i - 1].1 + 8);
    }
}

proof fn lemma_buttons_fit(i: int)
    requires
        0 <= i <= 8,
    ensures
        10 <= button_left(i as nat) <= 10 + 150 * i,
    decreases i,
{
    if i > 0 {
        lemma_buttons_fit(i - 1);
    }
}

/// Above the buttons stand the status line and, below it, the search; the hint fills the row
/// behind the buttons and is never narrower than 120.
pub proof fn law_head_of_the_window(right: i32, bottom: i32)
    ensures
        ({
            let all = placements(right, bottom);
            let width = if right > 920 { right as int } else { 920 };
            &&& all[0].id == ID_STATUS && all[0].x == 10 && all[0].y == 8 && all[0].width == width
                - 20 && all[0].height == 24
            &&& all[1].id == ID_SEARCH_LABEL && all[1].x == 10 && all[1].y == 39 && all[1].width
                == 64 && all[1].height == 26
            &&& all[2].id == ID_SEARCH && all[2].x == 68 && all[2].y == 37 && all[2].width == 280
                && all[2].height == 28
            &&& all[3].id == ID_ATTENTION && all[3].x == 360 && all[3].y == 39 && all[3].width
                == 120 && all[3].height == 26
            &&& all[12].id == ID_HINT && all[12].x == 850 && all[12].y == 77 && all[12].height == 22
            &&& width >= 980 ==> all[12].x + all[12].width + 10 == width
            &&& width < 980 ==> all[12].width == 120
        }),
{
    lemma_buttons_end();
    assert(button_row(8).len() == 8);
}

/// What a control asks for depends on the control alone, but for the search box, which asks for
/// something only when its text has changed.
pub proof fn law_commands_come_from_their_controls(low: usize, high: usize)
    requires
        low < 0x10000,
        high < 0x10000,
    ensures
        ({
            let wanted = command_of((high * 0x10000 + low) as usize);
            &&& low == 102 <==> wanted is Refresh
            &&& low == 103 <==> wanted is StartWatch
            &&& low == 104 <==> wanted is StopWatch
            &&& low == 105 <==> wanted is Terminate
            &&& low == 106 <==> wanted is OpenLog
            &&& low == 107 <==> wanted is Filter
            &&& low == 109 && high == 0x300 <==> wanted is Search
            &&& low == 111 <==> wanted is CheckAttention
            &&& low == 112 <==> wanted is CheckVisible
            &&& low == 113 <==> wanted is ClearChecks
        }),
{
    let parameter = (high * 0x10000 + low) as usize;
    assert(high * 0x10000 + low <= 0xffff_ffff);
    assert(parameter as int % 0x10000 == low);
    assert(parameter as int / 0x10000 % 0x10000 == high);
}

/// The columns with their widths, from left to right. Numbers stand to the right.
pub proof fn law_columns_have_their_widths(i: int)
    requires
        0 <= i < column_titles().len(),
    ensures
        column_titles()[i] == "风险"@ || column_titles()[i] == "状态"@ || column_titles()[i]
            == "PID"@ || column_titles()[i] == "进程"@ || column_titles()[i] == "类型"@
            || column_titles()[i] == "归属宿主"@ || column_titles()[i] == "父 PID"@
            || column_titles()[i] == "子进程"@ || column_titles()[i] == "运行时长"@
            || column_titles()[i] == "闲置时长"@,
        i == 0 ==> column_titles()[i] == "风险"@ && column_widths()[i] == 62,
        i == 1 ==> column_titles()[i] == "状态"@ && column_widths()[i] == 118,
        i == 2 ==> column_titles()[i] == "PID"@ && column_widths()[i] == 76,
        i == 3 ==> column_titles()[i] == "进程"@ && column_widths()[i] == 165,
        i == 4 ==> column_titles()[i] == "类型"@ && column_widths()[i] == 125,
        i == 5 ==> column_titles()[i] == "归属宿主"@ && column_widths()[i] == 170,
        i == 6 ==> column_titles()[i] == "父 PID"@ && column_widths()[i] == 78,
        i == 7 ==> column_titles()[i] == "子进程"@ && column_widths()[i] == 72,
        i == 8 ==> column_titles()[i] == "运行时长"@ && column_widths()[i] == 110,
        i == 9 ==> column_titles()[i] == "闲置时长"@ && column_widths()[i] == 110,
        holds_numbers(i) <==> column_titles()[i] == "PID"@ || column_titles()[i] == "父 PID"@
            || column_titles()[i] == "子进程"@,
{
    reveal_strlit("风险");
    reveal_strlit("状态");
    reveal_strlit("PID");
    reveal_strlit("进程");
    reveal_strlit("类型");
    reveal_strlit("归属宿主");
    reveal_strlit("父 PID");
    reveal_strlit("子进程");
    reveal_strlit("运行时长");
    reveal_strlit("闲置时长");
    assert("风险"@.len() == 2 && "状态"@.len() == 2 && "进程"@.len() == 2 && "类型"@.len() == 2);
    assert("归属宿主"@.len() == 4 && "父 PID"@.len() == 5 && "运行时长"@.len() == 4
        && "闲置时长"@.len() == 4);
    assert("PID"@.len() == 3 && "子进程"@.len() == 3);
}

/// The state of a row says whether it shows a tick by four of its bits, whatever the others are.
pub proof fn law_four_bits_tell_the_tick(low: u32, image: u32, high: u32)
    requires
        low < 0x1000,
        image < 0x10,
        high < 0x1_0000,
    ensures
        shows_tick((high * 0x1_0000 + image * 0x1000 + low) as u32) <==> image == 2,
{
    let state = (high * 0x1_0000 + image * 0x1000 + low) as u32;
    assert(high * 0x1_0000 + image * 0x1000 + low <= 0xffff_ffff);
    assert(state as int / 0x1000 == high * 0x10 + image);
    assert(state as int / 0x1000 % 0x10 == image);
}

/// Below the buttons the table begins at 110, and the details take a third of the window but no
/// more than 210.
pub proof fn law_details_take_a_third(right: i32, bottom: i32)
    ensures
        ({
            let all = placements(right, bottom);
            let height = if bottom > 600 { bottom as int } else { 600 };
            &&& all[13].id == ID_TABLE && all[13].x == 10 && all[13].y == 110
            &&& all[14].id == ID_DETAILS
            &&& height >= 630 ==> all[14].height == 210
            &&& height < 630 ==> all[14].height == height / 3
            &&& all[14].y + all[14].height == height - 12
            &&& all[13].y + all[13].height == all[14].y - 8
        }),
{
    lemma_buttons_end();
    assert(button_row(8).len() == 8);
}

/// Of the table's notices two count, the hundred and first and the second below zero, and none
/// while the table is being filled. The notices of other controls do not count.
pub proof fn law_two_notices_count(from: usize, code: u32, updating: bool)
    ensures
        !tells_of_user(from, code, true),
        from != 100 ==> !tells_of_user(from, code, updating),
        tells_of_user(100, code, false) <==> code == 0x1_0000_0000 - 101 || code == 0x1_0000_0000
            - 2,
{
}

} // verus!
