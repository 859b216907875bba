//! The interactive state: sort, filter, selection, refresh rate, freezing, tree
//! folding, the kill prompt, and how a key press changes them.

use crate::order::{index_range, lowered_names, SortDir, SortKey};
use crate::process::ProcessInfo;
use crate::text::{contains_chars, contains_seq, lowercase_chars, lowercase_of};
use crate::tree::{TreeOrder, TreeRow};
use std::collections::HashSet;
use vstd::prelude::*;

verus! {

broadcast use vstd::std_specs::hash::group_hash_axioms;

/// What the main loop has to do after a key press.
#[derive(Debug, PartialEq, Eq)]
pub enum Action {
    Nothing,
    Quit,
    KillConfirmed { pid: u32, name: String },
}

/// The mathematical content of an `Action`.
pub enum Outcome {
    Nothing,
    Quit,
    Kill(u32, Seq<char>),
}

impl View for Action {
    type V = Outcome;

    open spec fn view(&self) -> Outcome {
        match self {
            Action::Nothing => Outcome::Nothing,
            Action::Quit => Outcome::Quit,
            Action::KillConfirmed { pid, name } => Outcome::Kill(*pid, name@),
        }
    }
}

impl Clone for Action {
    fn clone(&self) -> (r: Self)
        ensures
            r == *self,
    {
        match self {
            Action::Nothing => Action::Nothing,
            Action::Quit => Action::Quit,
            Action::KillConfirmed { pid, name } => Action::KillConfirmed { pid: *pid, name: name.clone() },
        }
    }
}

/// The refresh intervals offered, in milliseconds, ascending.
pub const REFRESH_STEPS_MS: [u64; 5] = [250, 500, 1000, 2000, 5000];

/// The refresh interval a new state starts with.
pub const DEFAULT_REFRESH_MS: u64 = 1000;

/// How the filter line is being used.
#[derive(Debug, Clone, Copy, PartialEq, Eq, Structural)]
pub enum FilterMode {
    Inactive,
    Editing,
    Applied,
}

/// A flat table or a process tree.
#[derive(Debug, Clone, Copy, PartialEq, Eq, Structural)]
pub enum ViewMode {
    Flat,
    Tree,
}

impl Default for ViewMode {
    fn default() -> (r: Self)
        ensures
            r == ViewMode::Flat,
    {
        ViewMode::Flat
    }
}

/// A pending request to end a process.
#[derive(Debug, PartialEq, Eq)]
pub struct KillPrompt {
    pub pid: u32,
    pub name: String,
}

impl Clone for KillPrompt {
    fn clone(&self) -> (r: Self)
        ensures
            r == *self,
    {
        KillPrompt { pid: self.pid, name: self.name.clone() }
    }
}

/// The keys the monitor reacts to.
#[derive(Debug, Clone, Copy, PartialEq, Eq, Structural)]
pub enum KeyCode {
    Char(char),
    Esc,
    Enter,
    Backspace,
    Delete,
    Up,
    Down,
    PageUp,
    PageDown,
    Home,
    End,
    /// Any other key.
    Other,
}

/// The selected row of the process table.
pub struct TableSelection {
    selected: Option<usize>,
}

impl View for TableSelection {
    type V = Option<usize>;

    closed spec fn view(&self) -> Option<usize> {
        self.selected
    }
}

impl TableSelection {
    /// The selected row, if any.
    pub fn selected(&self) -> (r: Option<usize>)
        ensures
            r == self@,
    {
        self.selected
    }

    /// Selects a row, or nothing.
    pub fn select(&mut self, row: Option<usize>)
        ensures
            final(self)@ == row,
    {
        self.selected = row;
    }
}

/// Appends a character; calls `String::push`.
#[verifier::external_body]
pub(crate) fn push_char(s: &mut String, c: char)
    ensures
        final(s)@ == old(s)@.push(c),
{
    s.push(c);
}

/// Removes the last character; calls `String::pop`.
#[verifier::external_body]
fn pop_char(s: &mut String) -> (r: Option<char>)
    ensures
        old(s)@.len() == 0 ==> r == None::<char> && final(s)@ == old(s)@,
        old(s)@.len() > 0 ==> r == Some(old(s)@.last()) && final(s)@ == old(s)@.drop_last(),
{
    s.pop()
}

/// Everything the monitor's interaction depends on.
pub struct AppState {
    pub table: TableSelection,
    pub sort_key: SortKey,
    pub sort_dir: SortDir,
    pub filter_mode: FilterMode,
    pub filter: String,
    pub show_details: bool,
    pub kill_prompt: Option<KillPrompt>,
    pub status_msg: Option<String>,
    pub paused: bool,
    pub refresh_ms: u64,
    pub sort_frozen: bool,
    pub frozen_order: Vec<u32>,
    pub frozen_tree_order: TreeOrder,
    pub view_mode: ViewMode,
    pub collapsed: HashSet<u32>,
}

/// The mathematical content of an `AppState`.
pub struct AppView {
    pub selected: Option<usize>,
    pub sort_key: SortKey,
    pub sort_dir: SortDir,
    pub filter_mode: FilterMode,
    pub filter: Seq<char>,
    pub show_details: bool,
    pub kill_prompt: Option<(u32, Seq<char>)>,
    pub status_msg: Option<Seq<char>>,
    pub paused: bool,
    pub refresh_ms: u64,
    pub sort_frozen: bool,
    pub frozen_order: Seq<u32>,
    pub frozen_tree_order: Map<Option<u32>, Seq<u32>>,
    pub view_mode: ViewMode,
    pub collapsed: Set<u32>,
}

impl View for AppState {
    type V = AppView;

    open spec fn view(&self) -> AppView {
        AppView {
            selected: self.table@,
            sort_key: self.sort_key,
            sort_dir: self.sort_dir,
            filter_mode: self.filter_mode,
            filter: self.filter@,
            show_details: self.show_details,
            kill_prompt: match self.kill_prompt {
                Some(p) => Some((p.pid, p.name@)),
                None => None,
            },
            status_msg: match self.status_msg {
                Some(m) => Some(m@),
                None => None,
            },
            paused: self.paused,
            refresh_ms: self.refresh_ms,
            sort_frozen: self.sort_frozen,
            frozen_order: self.frozen_order@,
            frozen_tree_order: self.frozen_tree_order@,
            view_mode: self.view_mode,
            collapsed: self.collapsed@,
        }
    }
}

/// The state a fresh monitor starts in.
pub open spec fn initial_view() -> AppView {
    AppView {
        selected: Some(0),
        sort_key: SortKey::Pid,
        sort_dir: SortDir::Asc,
        filter_mode: FilterMode::Inactive,
        filter: Seq::empty(),
        show_details: false,
        kill_prompt: None,
        status_msg: None,
        paused: false,
        refresh_ms: DEFAULT_REFRESH_MS,
        sort_frozen: false,
        frozen_order: Seq::empty(),
        frozen_tree_order: Map::empty(),
        view_mode: ViewMode::Flat,
        collapsed: Set::empty(),
    }
}

/// The direction a column starts in when first chosen: largest first for CPU, memory
/// and disk traffic, smallest first for names and pids.
pub open spec fn default_dir(key: SortKey) -> SortDir {
    match key {
        SortKey::Cpu | SortKey::Memory | SortKey::Io => SortDir::Desc,
        SortKey::Name | SortKey::Pid => SortDir::Asc,
    }
}

/// The other direction.
pub open spec fn flip(dir: SortDir) -> SortDir {
    match dir {
        SortDir::Asc => SortDir::Desc,
        SortDir::Desc => SortDir::Asc,
    }
}

/// After choosing the sort column `key`: the same column flips direction, a new one
/// starts in its default direction; frozen orders are dropped either way.
pub open spec fn toggled_sort(s: AppView, key: SortKey) -> AppView {
    AppView {
        sort_key: key,
        sort_dir: if s.sort_key == key {
            flip(s.sort_dir)
        } else {
            default_dir(key)
        },
        frozen_order: Seq::empty(),
        frozen_tree_order: Map::empty(),
        ..s
    }
}

/// After switching between flat and tree view: folds and frozen orders are dropped.
pub open spec fn toggled_view_mode(s: AppView) -> AppView {
    AppView {
        view_mode: match s.view_mode {
            ViewMode::Flat => ViewMode::Tree,
            ViewMode::Tree => ViewMode::Flat,
        },
        collapsed: Set::empty(),
        frozen_order: Seq::empty(),
        frozen_tree_order: Map::empty(),
        ..s
    }
}

/// After folding or unfolding the node of `pid`.
pub open spec fn toggled_collapsed(s: AppView, pid: u32) -> AppView {
    AppView {
        collapsed: if s.collapsed.contains(pid) {
            s.collapsed.remove(pid)
        } else {
            s.collapsed.insert(pid)
        },
        ..s
    }
}

/// After freezing or unfreezing the order: unfreezing drops the frozen orders.
pub open spec fn toggled_freeze(s: AppView) -> AppView {
    if s.sort_frozen {
        AppView { sort_frozen: false, frozen_order: Seq::empty(), frozen_tree_order: Map::empty(), ..s }
    } else {
        AppView { sort_frozen: true, ..s }
    }
}

/// After confirming the filter: an empty filter is inactive, any other is applied.
pub open spec fn confirmed_filter(s: AppView) -> AppView {
    AppView {
        filter_mode: if s.filter.len() == 0 {
            FilterMode::Inactive
        } else {
            FilterMode::Applied
        },
        ..s
    }
}

/// After clearing the filter.
pub open spec fn cleared_filter(s: AppView) -> AppView {
    AppView { filter: Seq::empty(), filter_mode: FilterMode::Inactive, ..s }
}

/// The last of `steps` below `cur`, if any.
pub open spec fn last_below(steps: Seq<u64>, cur: u64) -> Option<u64>
    decreases steps.len(),
{
    if steps.len() == 0 {
        None
    } else if steps.last() < cur {
        Some(steps.last())
    } else {
        last_below(steps.drop_last(), cur)
    }
}

/// The first of `steps` above `cur`, if any.
pub open spec fn first_above(steps: Seq<u64>, cur: u64) -> Option<u64>
    decreases steps.len(),
{
    if steps.len() == 0 {
        None
    } else if steps[0] > cur {
        Some(steps[0])
    } else {
        first_above(steps.drop_first(), cur)
    }
}

/// The next faster interval: the largest step below `cur`, or the smallest step.
pub open spec fn faster_ms(cur: u64) -> u64 {
    match last_below(REFRESH_STEPS_MS@, cur) {
        Some(m) => m,
        None => REFRESH_STEPS_MS@[0],
    }
}

/// The next slower interval: the smallest step above `cur`, or the largest step.
pub open spec fn slower_ms(cur: u64) -> u64 {
    match first_above(REFRESH_STEPS_MS@, cur) {
        Some(m) => m,
        None => REFRESH_STEPS_MS@.last(),
    }
}

fn faster_step(cur: u64) -> (r: u64)
    ensures
        r == faster_ms(cur),
{
    let steps = REFRESH_STEPS_MS;
    let mut i: usize = 5;
    assert(steps@.len() == 5);
    assert(steps@.take(5) =~= steps@);
    while i > 0
        invariant
            i <= 5,
            steps@.len() == 5,
            steps@ == REFRESH_STEPS_MS@,
            last_below(steps@, cur) == last_below(steps@.take(i as int), cur),
        decreases i,
    {
        assert(steps@.take(i as int).drop_last() =~= steps@.take(i - 1));
        if steps[i - 1] < cur {
            return steps[i - 1];
        }
        i = i - 1;
    }
    assert(steps@.take(0) =~= Seq::<u64>::empty());
    steps[0]
}

fn slower_step(cur: u64) -> (r: u64)
    ensures
        r == slower_ms(cur),
{
    let steps = REFRESH_STEPS_MS;
    let mut i: usize = 0;
    assert(steps@.len() == 5);
    assert(steps@.skip(0) =~= steps@);
    while i < 5
        invariant
            i <= 5,
            steps@.len() == 5,
            steps@ == REFRESH_STEPS_MS@,
            first_above(steps@, cur) == first_above(steps@.skip(i as int), cur),
        decreases 5 - i,
    {
        assert(steps@.skip(i as int).drop_first() =~= steps@.skip(i + 1));
        if steps[i] > cur {
            return steps[i];
        }
        i = i + 1;
    }
    assert(steps@.skip(5) =~= Seq::<u64>::empty());
    steps[4]
}

impl AppState {
    /// Steps the refresh interval down (see `faster_ms`).
    pub fn faster_refresh(&mut self)
        ensures
            final(self)@ == (AppView { refresh_ms: faster_ms(old(self)@.refresh_ms), ..old(self)@ }),
    {
        self.refresh_ms = faster_step(self.refresh_ms);
    }

    /// Steps the refresh interval up (see `slower_ms`).
    pub fn slower_refresh(&mut self)
        ensures
            final(self)@ == (AppView { refresh_ms: slower_ms(old(self)@.refresh_ms), ..old(self)@ }),
    {
        self.refresh_ms = slower_step(self.refresh_ms);
    }
}

impl AppState {
    /// A fresh state: first row selected, sorted by pid ascending, nothing filtered,
    /// running at the default interval.
    pub fn new() -> (r: Self)
        ensures
            r@ == initial_view(),
    {
        let mut table = TableSelection { selected: None };
        table.select(Some(0));
        let r = AppState {
            table,
            sort_key: SortKey::Pid,
            sort_dir: SortDir::Asc,
            filter_mode: FilterMode::Inactive,
            filter: String::new(),
            show_details: false,
            kill_prompt: None,
            status_msg: None,
            paused: false,
            refresh_ms: DEFAULT_REFRESH_MS,
            sort_frozen: false,
            frozen_order: Vec::new(),
            frozen_tree_order: TreeOrder::new(),
            view_mode: ViewMode::Flat,
            collapsed: HashSet::new(),
        };
        assert(r@ == initial_view());
        r
    }

    /// Switches between flat and tree view.
    pub fn toggle_view_mode(&mut self)
        ensures
            final(self)@ == toggled_view_mode(old(self)@),
    {
        self.view_mode = match self.view_mode {
            ViewMode::Flat => ViewMode::Tree,
            ViewMode::Tree => ViewMode::Flat,
        };
        self.collapsed.clear();
        self.frozen_order.clear();
        self.frozen_tree_order.clear();
    }

    /// Folds the node of `pid`, or unfolds it if folded.
    pub fn toggle_collapsed(&mut self, pid: u32)
        ensures
            final(self)@ == toggled_collapsed(old(self)@, pid),
    {
        if !self.collapsed.insert(pid) {
            self.collapsed.remove(&pid);
        }
        assert(self@.collapsed =~= toggled_collapsed(old(self)@, pid).collapsed);
    }

    /// Freezes the row order, or unfreezes it and drops the frozen orders.
    pub fn toggle_freeze(&mut self)
        ensures
            final(self)@ == toggled_freeze(old(self)@),
    {
        self.sort_frozen = !self.sort_frozen;
        if !self.sort_frozen {
            self.frozen_order.clear();
            self.frozen_tree_order.clear();
        }
    }

    /// Shows or hides the detail pane.
    pub fn toggle_details(&mut self)
        ensures
            final(self)@ == (AppView { show_details: !old(self)@.show_details, ..old(self)@ }),
    {
        self.show_details = !self.show_details;
    }

    /// Asks for confirmation before ending `pid`.
    pub fn request_kill(&mut self, pid: u32, name: String)
        ensures
            final(self)@ == (AppView { kill_prompt: Some((pid, name@)), ..old(self)@ }),
    {
        self.kill_prompt = Some(KillPrompt { pid, name });
    }

    /// Dismisses the kill prompt.
    pub fn cancel_kill(&mut self)
        ensures
            final(self)@ == (AppView { kill_prompt: None, ..old(self)@ }),
    {
        self.kill_prompt = None;
    }

    /// Pauses or resumes sampling.
    pub fn toggle_pause(&mut self)
        ensures
            final(self)@ == (AppView { paused: !old(self)@.paused, ..old(self)@ }),
    {
        self.paused = !self.paused;
    }

    /// Starts editing the filter.
    pub fn start_filter_edit(&mut self)
        ensures
            final(self)@ == (AppView { filter_mode: FilterMode::Editing, ..old(self)@ }),
    {
        self.filter_mode = FilterMode::Editing;
    }

    /// Ends editing: the filter applies unless it is empty.
    pub fn confirm_filter(&mut self)
        ensures
            final(self)@ == confirmed_filter(old(self)@),
    {
        self.filter_mode = if self.filter.as_str().is_empty() {
            FilterMode::Inactive
        } else {
            FilterMode::Applied
        };
    }

    /// Empties the filter and turns it off.
    pub fn clear_filter(&mut self)
        ensures
            final(self)@ == cleared_filter(old(self)@),
    {
        self.filter = String::new();
        self.filter_mode = FilterMode::Inactive;
    }

    /// Chooses the sort column (see `toggled_sort`).
    pub fn toggle_sort(&mut self, key: SortKey)
        ensures
            final(self)@ == toggled_sort(old(self)@, key),
    {
        if self.sort_key == key {
            self.sort_dir = match self.sort_dir {
                SortDir::Asc => SortDir::Desc,
                SortDir::Desc => SortDir::Asc,
            };
        } else {
            self.sort_key = key;
            self.sort_dir = match key {
                SortKey::Cpu | SortKey::Memory | SortKey::Io => SortDir::Desc,
                SortKey::Name | SortKey::Pid => SortDir::Asc,
            };
        }
        self.frozen_order.clear();
        self.frozen_tree_order.clear();
    }
}

/// The selection after moving down one row (staying on the last row).
pub open spec fn next_selection(sel: Option<usize>, total: usize) -> Option<usize> {
    if total == 0 {
        None
    } else {
        match sel {
            Some(i) => if i + 1 < total {
                Some((i + 1) as usize)
            } else {
                Some((total - 1) as usize)
            },
            None => Some(0),
        }
    }
}

/// The selection after moving up one row (staying on the first row).
pub open spec fn prev_selection(sel: Option<usize>, total: usize) -> Option<usize> {
    if total == 0 {
        None
    } else {
        match sel {
            Some(i) => if i > 0 {
                Some((i - 1) as usize)
            } else {
                Some(0)
            },
            None => Some(0),
        }
    }
}

/// The selection after jumping to the first row.
pub open spec fn first_selection(total: usize) -> Option<usize> {
    if total == 0 {
        None
    } else {
        Some(0)
    }
}

/// The selection after jumping to the last row.
pub open spec fn last_selection(total: usize) -> Option<usize> {
    if total == 0 {
        None
    } else {
        Some((total - 1) as usize)
    }
}

/// The row a page move starts from.
pub open spec fn cursor(sel: Option<usize>) -> usize {
    match sel {
        Some(i) => i,
        None => 0,
    }
}

/// The selection after moving down `page` rows (staying on the last row).
pub open spec fn page_down_selection(sel: Option<usize>, total: usize, page: usize) -> Option<usize> {
    if total == 0 {
        None
    } else if cursor(sel) + page < total - 1 {
        Some((cursor(sel) + page) as usize)
    } else {
        Some((total - 1) as usize)
    }
}

/// The selection after moving up `page` rows (staying on the first row).
pub open spec fn page_up_selection(sel: Option<usize>, total: usize, page: usize) -> Option<usize> {
    if total == 0 {
        None
    } else if cursor(sel) >= page {
        Some((cursor(sel) - page) as usize)
    } else {
        Some(0)
    }
}

/// The selection kept within `total` rows: a selection past the end moves to the last
/// row, no selection becomes the first row, and nothing is selected in an empty table.
pub open spec fn clamped_selection(sel: Option<usize>, total: usize) -> Option<usize> {
    if total == 0 {
        None
    } else {
        match sel {
            Some(i) => if i >= total {
                Some((total - 1) as usize)
            } else {
                Some(i)
            },
            None => Some(0),
        }
    }
}

/// Moving down cannot overflow the row index.
pub open spec fn can_step_down(sel: Option<usize>, total: usize) -> bool {
    total == 0 || sel != Some(usize::MAX)
}

/// Moving down a page cannot overflow the row index.
pub open spec fn can_page_down(sel: Option<usize>, total: usize, page: usize) -> bool {
    total == 0 || cursor(sel) + page <= usize::MAX
}

/// The state with another selection.
pub open spec fn with_selection(s: AppView, sel: Option<usize>) -> AppView {
    AppView { selected: sel, ..s }
}

impl AppState {
    /// Moves the selection down one row.
    pub fn select_next(&mut self, total: usize)
        requires
            can_step_down(old(self)@.selected, total),
        ensures
            final(self)@ == with_selection(old(self)@, next_selection(old(self)@.selected, total)),
    {
        if total == 0 {
            self.table.select(None);
            return;
        }
        let next = match self.table.selected() {
            Some(i) => if i + 1 < total {
                i + 1
            } else {
                total - 1
            },
            None => 0,
        };
        self.table.select(Some(next));
    }

    /// Moves the selection up one row.
    pub fn select_prev(&mut self, total: usize)
        ensures
            final(self)@ == with_selection(old(self)@, prev_selection(old(self)@.selected, total)),
    {
        if total == 0 {
            self.table.select(None);
            return;
        }
        let prev = match self.table.selected() {
            Some(i) => if i > 0 {
                i - 1
            } else {
                0
            },
            None => 0,
        };
        self.table.select(Some(prev));
    }

    /// Selects the first row.
    pub fn select_first(&mut self, total: usize)
        ensures
            final(self)@ == with_selection(old(self)@, first_selection(total)),
    {
        if total == 0 {
            self.table.select(None);
        } else {
            self.table.select(Some(0));
        }
    }

    /// Selects the last row.
    pub fn select_last(&mut self, total: usize)
        ensures
            final(self)@ == with_selection(old(self)@, last_selection(total)),
    {
        if total == 0 {
            self.table.select(None);
        } else {
            self.table.select(Some(total - 1));
        }
    }

    /// Moves the selection down `page` rows.
    pub fn page_down(&mut self, total: usize, page: usize)
        requires
            can_page_down(old(self)@.selected, total, page),
        ensures
            final(self)@ == with_selection(old(self)@, page_down_selection(old(self)@.selected, total, page)),
    {
        if total == 0 {
            self.table.select(None);
            return;
        }
        let cur = match self.table.selected() {
            Some(i) => i,
            None => 0,
        };
        let next = if cur + page < total - 1 {
            cur + page
        } else {
            total - 1
        };
        self.table.select(Some(next));
    }

    /// Moves the selection up `page` rows.
    pub fn page_up(&mut self, total: usize, page: usize)
        ensures
            final(self)@ == with_selection(old(self)@, page_up_selection(old(self)@.selected, total, page)),
    {
        if total == 0 {
            self.table.select(None);
            return;
        }
        let cur = match self.table.selected() {
            Some(i) => i,
            None => 0,
        };
        let next = if cur >= page {
            cur - page
        } else {
            0
        };
        self.table.select(Some(next));
    }

    /// Keeps the selection within `total` rows (see `clamped_selection`).
    pub fn clamp_to(&mut self, total: usize)
        ensures
            final(self)@ == with_selection(old(self)@, clamped_selection(old(self)@.selected, total)),
    {
        if total == 0 {
            self.table.select(None);
        } else {
            match self.table.selected() {
                Some(i) => {
                    if i >= total {
                        self.table.select(Some(total - 1));
                    }
                },
                None => {
                    self.table.select(Some(0));
                },
            }
        }
    }
}

/// `key` is the character `a` or `b`.
pub open spec fn is_char(key: KeyCode, a: char, b: char) -> bool {
    key == KeyCode::Char(a) || key == KeyCode::Char(b)
}

/// The row a key command acts on, as a pid and name.
pub open spec fn selection_view(selected: Option<&(u32, String)>) -> Option<(u32, Seq<char>)> {
    match selected {
        Some(p) => Some((p.0, p.1@)),
        None => None,
    }
}

/// The effect of a key while the filter is being edited: Esc clears it, Enter confirms
/// it, Backspace deletes the last character, any character is typed.
pub open spec fn edit_step(s: AppView, key: KeyCode) -> AppView {
    match key {
        KeyCode::Esc => cleared_filter(s),
        KeyCode::Enter => confirmed_filter(s),
        KeyCode::Backspace => AppView {
            filter: if s.filter.len() > 0 {
                s.filter.drop_last()
            } else {
                s.filter
            },
            ..s
        },
        KeyCode::Char(ch) => AppView { filter: s.filter.push(ch), ..s },
        _ => s,
    }
}

/// The effect of a character command (the quit keys excepted).
pub open spec fn char_command(s: AppView, c: char, sel: Option<(u32, Seq<char>)>) -> AppView {
    if c == '/' {
        AppView { filter_mode: FilterMode::Editing, ..s }
    } else if c == 'c' || c == 'C' {
        toggled_sort(s, SortKey::Cpu)
    } else if c == 'm' || c == 'M' {
        toggled_sort(s, SortKey::Memory)
    } else if c == 'n' || c == 'N' {
        toggled_sort(s, SortKey::Name)
    } else if c == 'p' || c == 'P' {
        toggled_sort(s, SortKey::Pid)
    } else if c == 'i' || c == 'I' {
        toggled_sort(s, SortKey::Io)
    } else if c == 'd' || c == 'D' {
        AppView { show_details: !s.show_details, ..s }
    } else if c == 'f' || c == 'F' {
        toggled_freeze(s)
    } else if c == 't' || c == 'T' {
        toggled_view_mode(s)
    } else if c == 'k' || c == 'K' {
        kill_requested(s, sel)
    } else if c == ' ' {
        AppView { paused: !s.paused, ..s }
    } else if c == '+' || c == '=' {
        AppView { refresh_ms: faster_ms(s.refresh_ms), ..s }
    } else if c == '-' || c == '_' {
        AppView { refresh_ms: slower_ms(s.refresh_ms), ..s }
    } else {
        s
    }
}

/// A kill prompt for the selected row, if a row is selected.
pub open spec fn kill_requested(s: AppView, sel: Option<(u32, Seq<char>)>) -> AppView {
    match sel {
        Some(p) => AppView { kill_prompt: Some(p), ..s },
        None => s,
    }
}

/// The effect of a key in normal mode (the quit keys excepted).
pub open spec fn command_step(
    s: AppView,
    key: KeyCode,
    total: usize,
    page: usize,
    sel: Option<(u32, Seq<char>)>,
) -> AppView {
    match key {
        KeyCode::Char(c) => char_command(s, c, sel),
        KeyCode::Esc => if s.status_msg is Some {
            AppView { status_msg: None, ..s }
        } else if s.show_details {
            AppView { show_details: false, ..s }
        } else {
            cleared_filter(s)
        },
        KeyCode::Enter => match sel {
            Some(p) => if s.view_mode == ViewMode::Tree {
                toggled_collapsed(s, p.0)
            } else {
                s
            },
            None => s,
        },
        KeyCode::Delete => kill_requested(s, sel),
        KeyCode::Down => with_selection(s, next_selection(s.selected, total)),
        KeyCode::Up => with_selection(s, prev_selection(s.selected, total)),
        KeyCode::PageDown => with_selection(s, page_down_selection(s.selected, total, page)),
        KeyCode::PageUp => with_selection(s, page_up_selection(s.selected, total, page)),
        KeyCode::Home => with_selection(s, first_selection(total)),
        KeyCode::End => with_selection(s, last_selection(total)),
        _ => s,
    }
}

/// The state and outcome after a key press. A pending kill prompt takes every key:
/// y confirms (the prompt's pid and name are handed out), n or Esc dismisses, others
/// do nothing. While editing the filter every key goes to the filter (see `edit_step`).
/// Otherwise q quits and other keys are commands (see `command_step`).
pub open spec fn key_step(
    s: AppView,
    key: KeyCode,
    total: usize,
    page: usize,
    sel: Option<(u32, Seq<char>)>,
) -> (AppView, Outcome) {
    match s.kill_prompt {
        Some(p) => if is_char(key, 'y', 'Y') {
            (AppView { kill_prompt: None, ..s }, Outcome::Kill(p.0, p.1))
        } else if is_char(key, 'n', 'N') || key == KeyCode::Esc {
            (AppView { kill_prompt: None, ..s }, Outcome::Nothing)
        } else {
            (s, Outcome::Nothing)
        },
        None => if s.filter_mode == FilterMode::Editing {
            (edit_step(s, key), Outcome::Nothing)
        } else if is_char(key, 'q', 'Q') {
            (s, Outcome::Quit)
        } else {
            (command_step(s, key, total, page, sel), Outcome::Nothing)
        },
    }
}

/// A key press cannot overflow the selected row index (only row moves can).
pub open spec fn key_in_range(s: AppView, key: KeyCode, total: usize, page: usize) -> bool {
    s.kill_prompt is None && s.filter_mode != FilterMode::Editing ==> match key {
        KeyCode::Down => can_step_down(s.selected, total),
        KeyCode::PageDown => can_page_down(s.selected, total, page),
        _ => true,
    }
}

/// Applies a key press to the state (see `key_step`).
pub fn handle_key(
    state: &mut AppState,
    code: KeyCode,
    total: usize,
    page_size: usize,
    selected: Option<&(u32, String)>,
) -> (r: Action)
    requires
        key_in_range(old(state)@, code, total, page_size),
    ensures
        (final(state)@, r@) == key_step(old(state)@, code, total, page_size, selection_view(selected)),
{
    if state.kill_prompt.is_some() {
        match code {
            KeyCode::Char('y') | KeyCode::Char('Y') => {
                let prompt = state.kill_prompt.take();
                match prompt {
                    Some(p) => {
                        return Action::KillConfirmed { pid: p.pid, name: p.name };
                    },
                    None => {
                        return Action::Nothing;
                    },
                }
            },
            KeyCode::Char('n') | KeyCode::Char('N') | KeyCode::Esc => state.cancel_kill(),
            _ => {},
        }
        return Action::Nothing;
    }
    if state.filter_mode == FilterMode::Editing {
        match code {
            KeyCode::Esc => state.clear_filter(),
            KeyCode::Enter => state.confirm_filter(),
            KeyCode::Backspace => {
                let _ = pop_char(&mut state.filter);
            },
            KeyCode::Char(ch) => push_char(&mut state.filter, ch),
            _ => {},
        }
        return Action::Nothing;
    }
    match code {
        KeyCode::Char('q') | KeyCode::Char('Q') => {
            return Action::Quit;
        },
        KeyCode::Char('/') => state.start_filter_edit(),
        KeyCode::Esc => {
            if state.status_msg.is_some() {
                state.status_msg = None;
            } else if state.show_details {
                state.show_details = false;
            } else {
                state.clear_filter();
            }
        },
        KeyCode::Char('c') | KeyCode::Char('C') => state.toggle_sort(SortKey::Cpu),
        KeyCode::Char('m') | KeyCode::Char('M') => state.toggle_sort(SortKey::Memory),
        KeyCode::Char('n') | KeyCode::Char('N') => state.toggle_sort(SortKey::Name),
        KeyCode::Char('p') | KeyCode::Char('P') => state.toggle_sort(SortKey::Pid),
        KeyCode::Char('i') | KeyCode::Char('I') => state.toggle_sort(SortKey::Io),
        KeyCode::Char('d') | KeyCode::Char('D') => state.toggle_details(),
        KeyCode::Char('f') | KeyCode::Char('F') => state.toggle_freeze(),
        KeyCode::Char('t') | KeyCode::Char('T') => state.toggle_view_mode(),
        KeyCode::Enter => {
            if let Some(p) = selected {
                if state.view_mode == ViewMode::Tree {
                    state.toggle_collapsed(p.0);
                }
            }
        },
        KeyCode::Char('k') | KeyCode::Char('K') | KeyCode::Delete => {
            if let Some(p) = selected {
                state.request_kill(p.0, p.1.clone());
            }
        },
        KeyCode::Char(' ') => state.toggle_pause(),
        KeyCode::Char('+') | KeyCode::Char('=') => state.faster_refresh(),
        KeyCode::Char('-') | KeyCode::Char('_') => state.slower_refresh(),
        KeyCode::Down => state.select_next(total),
        KeyCode::Up => state.select_prev(total),
        KeyCode::PageDown => state.page_down(total, page_size),
        KeyCode::PageUp => state.page_up(total, page_size),
        KeyCode::Home => state.select_first(total),
        KeyCode::End => state.select_last(total),
        _ => {},
    }
    Action::Nothing
}

/// A name passes the table filter: the filter is empty, or its lower-cased form occurs
/// in the lower-cased name.
pub open spec fn passes_filter(name: Seq<char>, filter: Seq<char>) -> bool {
    filter.len() == 0 || contains_seq(lowercase_of(name), lowercase_of(filter))
}

/// The indices of the processes passing the filter, ascending.
pub open spec fn filtered_indices(ps: Seq<ProcessInfo>, filter: Seq<char>) -> Seq<usize> {
    Seq::new(ps.len(), |i: int| i as usize).filter(|i: usize| passes_filter(ps[i as int].name@, filter))
}

/// The positions of the lower-cased names in `lowered` that hold `needle`, ascending.
pub open spec fn holding(lowered: Seq<Vec<char>>, needle: Seq<char>) -> Seq<usize> {
    Seq::new(lowered.len(), |i: int| i as usize).filter(|i: usize| contains_seq(lowered[i as int]@, needle))
}

/// The positions of the lower-cased names that hold `needle` (see `holding`).
pub fn indices_holding(lowered: &Vec<Vec<char>>, needle: &Vec<char>) -> (r: Vec<usize>)
    ensures
        r@ == holding(lowered@, needle@),
{
    let n = lowered.len();
    let ghost all = Seq::new(n as nat, |i: int| i as usize);
    let ghost pred = |i: usize| contains_seq(lowered@[i as int]@, needle@);
    let mut out: Vec<usize> = Vec::new();
    let mut i: usize = 0;
    while i < n
        invariant
            n == lowered@.len(),
            all == Seq::new(n as nat, |i: int| i as usize),
            pred == (|i: usize| contains_seq(lowered@[i as int]@, needle@)),
            i <= n,
            out@ == all.take(i as int).filter(pred),
        decreases n - i,
    {
        assert(all.take(i + 1).drop_last() =~= all.take(i as int));
        assert(all.take(i + 1).last() == i);
        reveal_with_fuel(Seq::filter, 1);
        if contains_chars(&lowered[i], needle) {
            out.push(i);
        }
        i = i + 1;
    }
    assert(all.take(n as int) =~= all);
    out
}

/// The positions of the processes whose name passes the filter (see `passes_filter`).
pub fn filter_indices(processes: &Vec<ProcessInfo>, filter: &str) -> (r: Vec<usize>)
    ensures
        r@ == filtered_indices(processes@, filter@),
{
    let n = processes.len();
    let ghost all = Seq::new(n as nat, |i: int| i as usize);
    let ghost pred = |i: usize| passes_filter(processes@[i as int].name@, filter@);
    if filter.is_empty() {
        let r = index_range(n);
        proof {
            assert(r@ =~= all);
            crate::freeze::lemma_filter_all(all, pred);
        }
        return r;
    }
    let lowered = lowered_names(processes);
    let needle = lowercase_chars(filter);
    let r = indices_holding(&lowered, &needle);
    proof {
        let pred2 = |i: usize| contains_seq(lowered@[i as int]@, needle@);
        assert(holding(lowered@, needle@) == all.filter(pred2));
        assert forall|k: int| 0 <= k < all.len() implies pred2(#[trigger] all[k]) == pred(all[k]) by {
            assert(lowered@[k]@ == lowercase_of(processes@[k].name@));
        }
        crate::freeze::lemma_filter_agree(all, pred2, pred);
    }
    r
}

/// The process on the selected row, if the selection and the row point at one.
pub fn selected_process<'a>(processes: &'a Vec<ProcessInfo>, rows: &Vec<TreeRow>, state: &AppState) -> (r: Option<
    &'a ProcessInfo,
>)
    ensures
        r is Some <==> (match state@.selected {
            Some(row) => row < rows@.len() && rows@[row as int].idx < processes@.len(),
            None => false,
        }),
        match r {
            Some(p) => *p == processes@[rows@[state@.selected.unwrap() as int].idx as int],
            None => true,
        },
{
    let row = match state.table.selected() {
        Some(row) => row,
        None => {
            return None;
        },
    };
    if row >= rows.len() {
        return None;
    }
    let idx = rows[row].idx;
    if idx >= processes.len() {
        return None;
    }
    Some(&processes[idx])
}

/// Switching the view mode twice restores the mode (folds and frozen orders stay dropped).
pub proof fn lemma_view_mode_toggle_twice(s: AppView)
    ensures
        toggled_view_mode(toggled_view_mode(s)).view_mode == s.view_mode,
        toggled_view_mode(toggled_view_mode(s)) == (AppView {
            collapsed: Set::empty(),
            frozen_order: Seq::empty(),
            frozen_tree_order: Map::empty(),
            ..s
        }),
{
}

/// Folding a node twice gives back the same folds.
pub proof fn lemma_collapse_toggle_twice(s: AppView, pid: u32)
    ensures
        toggled_collapsed(toggled_collapsed(s, pid), pid) == s,
{
    let once = toggled_collapsed(s, pid);
    if s.collapsed.contains(pid) {
        assert(once.collapsed.insert(pid) =~= s.collapsed);
    } else {
        assert(once.collapsed.remove(pid) =~= s.collapsed);
    }
    assert(toggled_collapsed(once, pid).collapsed =~= s.collapsed);
}

/// Freezing twice restores the frozen flag and leaves no frozen order behind when the
/// order was not frozen to begin with.
pub proof fn lemma_freeze_toggle_twice(s: AppView)
    ensures
        toggled_freeze(toggled_freeze(s)).sort_frozen == s.sort_frozen,
        !s.sort_frozen ==> toggled_freeze(toggled_freeze(s)).frozen_order == Seq::<u32>::empty(),
        !s.sort_frozen ==> toggled_freeze(toggled_freeze(s)).frozen_tree_order == Map::<
            Option<u32>,
            Seq<u32>,
        >::empty(),
{
}

/// Choosing the current sort column twice restores its direction; choosing any column
/// drops the frozen orders.
pub proof fn lemma_sort_toggle(s: AppView, key: SortKey)
    ensures
        s.sort_key == key ==> toggled_sort(toggled_sort(s, key), key).sort_dir == s.sort_dir,
        s.sort_key != key ==> toggled_sort(s, key).sort_dir == default_dir(key),
        toggled_sort(s, key).sort_key == key,
        toggled_sort(s, key).frozen_order == Seq::<u32>::empty(),
        toggled_sort(s, key).frozen_tree_order == Map::<Option<u32>, Seq<u32>>::empty(),
{
}

/// The selection is valid for a table of `total` rows: nothing in an empty table,
/// a row below `total` otherwise.
pub open spec fn valid_selection(sel: Option<usize>, total: usize) -> bool {
    if total == 0 {
        sel is None
    } else {
        sel matches Some(i) && i < total
    }
}

/// Clamping makes any selection valid; moving to the first or last row, down a row or
/// down a page gives a valid selection from any selection; moving up a row or a page keeps
/// a valid selection valid.
pub proof fn lemma_navigation_stays_valid(sel: Option<usize>, total: usize, page: usize)
    ensures
        valid_selection(clamped_selection(sel, total), total),
        valid_selection(first_selection(total), total),
        valid_selection(last_selection(total), total),
        can_step_down(sel, total) ==> valid_selection(next_selection(sel, total), total),
        can_page_down(sel, total, page) ==> valid_selection(page_down_selection(sel, total, page), total),
        valid_selection(sel, total) || sel is None ==> valid_selection(prev_selection(sel, total), total),
        valid_selection(sel, total) || sel is None ==> valid_selection(page_up_selection(sel, total, page), total),
{
}

/// While a kill prompt is pending, a key other than y, n or Esc changes nothing; y
/// confirms the prompted process and n or Esc dismisses, leaving all else as it was.
pub proof fn lemma_kill_prompt_is_modal(
    s: AppView,
    key: KeyCode,
    total: usize,
    page: usize,
    sel: Option<(u32, Seq<char>)>,
)
    requires
        s.kill_prompt is Some,
    ensures
        !is_char(key, 'y', 'Y') && !is_char(key, 'n', 'N') && key != KeyCode::Esc ==> key_step(
            s,
            key,
            total,
            page,
            sel,
        ) == (s, Outcome::Nothing),
        is_char(key, 'y', 'Y') ==> key_step(s, key, total, page, sel) == (AppView {
            kill_prompt: None,
            ..s
        }, Outcome::Kill(s.kill_prompt.unwrap().0, s.kill_prompt.unwrap().1)),
        is_char(key, 'n', 'N') || key == KeyCode::Esc ==> key_step(s, key, total, page, sel) == (AppView {
            kill_prompt: None,
            ..s
        }, Outcome::Nothing),
{
}

/// While the filter is edited (and no prompt is pending), every character is typed
/// into the filter and nothing else happens: no command runs and nothing quits.
pub proof fn lemma_filter_edit_types_characters(
    s: AppView,
    c: char,
    total: usize,
    page: usize,
    sel: Option<(u32, Seq<char>)>,
)
    requires
        s.kill_prompt is None,
        s.filter_mode == FilterMode::Editing,
    ensures
        key_step(s, KeyCode::Char(c), total, page, sel) == (AppView { filter: s.filter.push(c), ..s }, Outcome::Nothing),
{
}

/// Outside a prompt and outside filter editing, every command key does what the matching
/// method does (in either case): / starts editing the filter; c, m, n, p, i sort on CPU,
/// memory, name, pid, disk traffic; d shows or hides details; f freezes or unfreezes; t
/// switches the view; space pauses or resumes; + or = refreshes faster, - or _ slower;
/// the arrows, page keys, Home and End move the selection; and none of them has an outcome.
pub proof fn lemma_command_keys(s: AppView, total: usize, page: usize, sel: Option<(u32, Seq<char>)>)
    requires
        s.kill_prompt is None,
        s.filter_mode != FilterMode::Editing,
    ensures
        key_step(s, KeyCode::Char('/'), total, page, sel) == (AppView { filter_mode: FilterMode::Editing, ..s }, Outcome::Nothing),
        key_step(s, KeyCode::Char('c'), total, page, sel) == (toggled_sort(s, SortKey::Cpu), Outcome::Nothing),
        key_step(s, KeyCode::Char('C'), total, page, sel) == (toggled_sort(s, SortKey::Cpu), Outcome::Nothing),
        key_step(s, KeyCode::Char('m'), total, page, sel) == (toggled_sort(s, SortKey::Memory), Outcome::Nothing),
        key_step(s, KeyCode::Char('M'), total, page, sel) == (toggled_sort(s, SortKey::Memory), Outcome::Nothing),
        key_step(s, KeyCode::Char('n'), total, page, sel) == (toggled_sort(s, SortKey::Name), Outcome::Nothing),
        key_step(s, KeyCode::Char('N'), total, page, sel) == (toggled_sort(s, SortKey::Name), Outcome::Nothing),
        key_step(s, KeyCode::Char('p'), total, page, sel) == (toggled_sort(s, SortKey::Pid), Outcome::Nothing),
        key_step(s, KeyCode::Char('P'), total, page, sel) == (toggled_sort(s, SortKey::Pid), Outcome::Nothing),
        key_step(s, KeyCode::Char('i'), total, page, sel) == (toggled_sort(s, SortKey::Io), Outcome::Nothing),
        key_step(s, KeyCode::Char('I'), total, page, sel) == (toggled_sort(s, SortKey::Io), Outcome::Nothing),
        key_step(s, KeyCode::Char('d'), total, page, sel) == (AppView { show_details: !s.show_details, ..s }, Outcome::Nothing),
        key_step(s, KeyCode::Char('D'), total, page, sel) == (AppView { show_details: !s.show_details, ..s }, Outcome::Nothing),
        key_step(s, KeyCode::Char('f'), total, page, sel) == (toggled_freeze(s), Outcome::Nothing),
        key_step(s, KeyCode::Char('F'), total, page, sel) == (toggled_freeze(s), Outcome::Nothing),
        key_step(s, KeyCode::Char('t'), total, page, sel) == (toggled_view_mode(s), Outcome::Nothing),
        key_step(s, KeyCode::Char('T'), total, page, sel) == (toggled_view_mode(s), Outcome::Nothing),
        key_step(s, KeyCode::Char(' '), total, page, sel) == (AppView { paused: !s.paused, ..s }, Outcome::Nothing),
        key_step(s, KeyCode::Char('+'), total, page, sel) == (AppView { refresh_ms: faster_ms(s.refresh_ms), ..s }, Outcome::Nothing),
        key_step(s, KeyCode::Char('='), total, page, sel) == (AppView { refresh_ms: faster_ms(s.refresh_ms), ..s }, Outcome::Nothing),
        key_step(s, KeyCode::Char('-'), total, page, sel) == (AppView { refresh_ms: slower_ms(s.refresh_ms), ..s }, Outcome::Nothing),
        key_step(s, KeyCode::Char('_'), total, page, sel) == (AppView { refresh_ms: slower_ms(s.refresh_ms), ..s }, Outcome::Nothing),
        key_step(s, KeyCode::Down, total, page, sel) == (with_selection(s, next_selection(s.selected, total)), Outcome::Nothing),
        key_step(s, KeyCode::Up, total, page, sel) == (with_selection(s, prev_selection(s.selected, total)), Outcome::Nothing),
        key_step(s, KeyCode::PageDown, total, page, sel) == (with_selection(s, page_down_selection(s.selected, total, page)), Outcome::Nothing),
        key_step(s, KeyCode::PageUp, total, page, sel) == (with_selection(s, page_up_selection(s.selected, total, page)), Outcome::Nothing),
        key_step(s, KeyCode::Home, total, page, sel) == (with_selection(s, first_selection(total)), Outcome::Nothing),
        key_step(s, KeyCode::End, total, page, sel) == (with_selection(s, last_selection(total)), Outcome::Nothing),
{
}

/// Outside a prompt and outside filter editing, the movement keys move the selection over
/// `total > 0` rows from row `c` (row 0 when nothing is selected) and change nothing
/// else: Down goes one row down and Up one row up, PageDown goes `page` rows down and
/// PageUp `page` rows up, each stopping at the last or the first row; Home goes to the
/// first row and End to the last; Down or Up with nothing selected selects the first row.
pub proof fn lemma_movement_keys(s: AppView, total: usize, page: usize, sel: Option<(u32, Seq<char>)>)
    requires
        s.kill_prompt is None,
        s.filter_mode != FilterMode::Editing,
        total > 0,
    ensures
        ({
            let c: int = match s.selected {
                Some(i) => i as int,
                None => 0,
            };
            let last: int = total - 1;
            &&& key_step(s, KeyCode::Down, total, page, sel).1 == Outcome::Nothing
            &&& key_step(s, KeyCode::Down, total, page, sel).0 == AppView { selected: key_step(s, KeyCode::Down, total, page, sel).0.selected, ..s }
            &&& key_step(s, KeyCode::Down, total, page, sel).0.selected matches Some(v) && (if s.selected is None {
                v == 0
            } else if c + 1 <= last {
                v == c + 1
            } else {
                v == last
            })
            &&& key_step(s, KeyCode::Up, total, page, sel).0 == AppView { selected: key_step(s, KeyCode::Up, total, page, sel).0.selected, ..s }
            &&& key_step(s, KeyCode::Up, total, page, sel).0.selected matches Some(v) && (if c >= 1 {
                v + 1 == c
            } else {
                v == 0
            })
            &&& key_step(s, KeyCode::PageDown, total, page, sel).0 == AppView { selected: key_step(s, KeyCode::PageDown, total, page, sel).0.selected, ..s }
            &&& key_step(s, KeyCode::PageDown, total, page, sel).0.selected matches Some(v) && (if c + page <= last {
                v == c + page
            } else {
                v == last
            })
            &&& key_step(s, KeyCode::PageUp, total, page, sel).0 == AppView { selected: key_step(s, KeyCode::PageUp, total, page, sel).0.selected, ..s }
            &&& key_step(s, KeyCode::PageUp, total, page, sel).0.selected matches Some(v) && (if c >= page {
                v + page == c
            } else {
                v == 0
            })
            &&& key_step(s, KeyCode::Home, total, page, sel).0 == AppView { selected: Some(0), ..s }
            &&& key_step(s, KeyCode::End, total, page, sel).0 == AppView { selected: Some((total - 1) as usize), ..s }
        }),
{
}

/// Outside a prompt and outside filter editing: k, K and Delete ask to end the selected
/// process (a prompt for its pid and name, nothing else changed) and do nothing without
/// a selection; q and Q quit and change nothing; Enter in the tree view folds or unfolds
/// the selected process and does nothing in the flat view; Esc dismisses the status line
/// first, else hides the details, else clears the filter.
pub proof fn lemma_action_keys(s: AppView, total: usize, page: usize, sel: Option<(u32, Seq<char>)>)
    requires
        s.kill_prompt is None,
        s.filter_mode != FilterMode::Editing,
    ensures
        forall|key: KeyCode|
            (key == KeyCode::Char('k') || key == KeyCode::Char('K') || key == KeyCode::Delete) ==> #[trigger] key_step(
                s,
                key,
                total,
                page,
                sel,
            ) == (match sel {
                Some(p) => AppView { kill_prompt: Some(p), ..s },
                None => s,
            }, Outcome::Nothing),
        key_step(s, KeyCode::Char('q'), total, page, sel) == (s, Outcome::Quit),
        key_step(s, KeyCode::Char('Q'), total, page, sel) == (s, Outcome::Quit),
        key_step(s, KeyCode::Enter, total, page, sel).1 == Outcome::Nothing,
        key_step(s, KeyCode::Enter, total, page, sel).0 == (match sel {
            Some(p) => if s.view_mode == ViewMode::Tree {
                AppView {
                    collapsed: if s.collapsed.contains(p.0) {
                        s.collapsed.remove(p.0)
                    } else {
                        s.collapsed.insert(p.0)
                    },
                    ..s
                }
            } else {
                s
            },
            None => s,
        }),
        key_step(s, KeyCode::Esc, total, page, sel) == (if s.status_msg is Some {
            AppView { status_msg: None, ..s }
        } else if s.show_details {
            AppView { show_details: false, ..s }
        } else {
            AppView { filter: Seq::empty(), filter_mode: FilterMode::Inactive, ..s }
        }, Outcome::Nothing),
{
}

/// Keeping the selection on a row: in an empty table nothing is selected; otherwise a
/// selected row that exists stays selected, one past the end moves to the last row, and
/// no selection becomes the first row.
pub proof fn lemma_clamp_keeps_rows(sel: Option<usize>, total: usize)
    ensures
        total == 0 ==> clamped_selection(sel, total) is None,
        total > 0 ==> match sel {
            Some(i) => if i < total {
                clamped_selection(sel, total) == Some(i)
            } else {
                clamped_selection(sel, total) matches Some(v) && v + 1 == total
            },
            None => clamped_selection(sel, total) == Some(0usize),
        },
{
}

/// While the filter is edited (and no prompt is pending): Backspace removes the last
/// character (nothing when the filter is empty), Enter applies a non-empty filter and
/// leaves an empty one inactive, Esc clears the filter and stops editing, and any other
/// key that is not a character changes nothing; none of them has an outcome.
pub proof fn lemma_edit_keys(s: AppView, key: KeyCode, total: usize, page: usize, sel: Option<(u32, Seq<char>)>)
    requires
        s.kill_prompt is None,
        s.filter_mode == FilterMode::Editing,
    ensures
        key_step(s, key, total, page, sel).1 == Outcome::Nothing,
        key == KeyCode::Backspace ==> key_step(s, key, total, page, sel).0 == (AppView {
            filter: if s.filter.len() == 0 {
                s.filter
            } else {
                s.filter.subrange(0, s.filter.len() - 1)
            },
            ..s
        }),
        key == KeyCode::Enter ==> key_step(s, key, total, page, sel).0 == (AppView {
            filter_mode: if s.filter.len() == 0 {
                FilterMode::Inactive
            } else {
                FilterMode::Applied
            },
            ..s
        }),
        key == KeyCode::Esc ==> key_step(s, key, total, page, sel).0 == (AppView {
            filter: Seq::empty(),
            filter_mode: FilterMode::Inactive,
            ..s
        }),
        !(key is Char) && key != KeyCode::Backspace && key != KeyCode::Enter && key != KeyCode::Esc
            ==> key_step(s, key, total, page, sel).0 == s,
{
}

/// Choosing a sort column: a new column starts largest first for CPU, memory and disk
/// traffic and smallest first for names and pids; choosing the current column again
/// reverses its direction.
pub proof fn lemma_sort_choice(s: AppView, key: SortKey)
    ensures
        toggled_sort(s, key).sort_key == key,
        s.sort_key != key && (key == SortKey::Cpu || key == SortKey::Memory || key == SortKey::Io)
            ==> toggled_sort(s, key).sort_dir == SortDir::Desc,
        s.sort_key != key && (key == SortKey::Name || key == SortKey::Pid) ==> toggled_sort(s, key).sort_dir == SortDir::Asc,
        s.sort_key == key ==> toggled_sort(s, key).sort_dir != s.sort_dir,
{
}

/// Stepping the refresh interval: faster goes to the largest offered step strictly below
/// the current interval (the smallest step when there is none), slower to the smallest
/// step strictly above it (the largest step when there is none).
pub proof fn lemma_refresh_neighbours(cur: u64)
    ensures
        faster_ms(cur) < cur || (faster_ms(cur) == REFRESH_STEPS_MS@[0] && cur <= REFRESH_STEPS_MS@[0]),
        forall|k: int| 0 <= k < 5 && #[trigger] REFRESH_STEPS_MS@[k] < cur ==> REFRESH_STEPS_MS@[k] <= faster_ms(cur),
        slower_ms(cur) > cur || (slower_ms(cur) == REFRESH_STEPS_MS@[4] && cur >= REFRESH_STEPS_MS@[4]),
        forall|k: int| 0 <= k < 5 && #[trigger] REFRESH_STEPS_MS@[k] > cur ==> REFRESH_STEPS_MS@[k] >= slower_ms(cur),
{
    let st = REFRESH_STEPS_MS@;
    assert(st =~= seq![250u64, 500, 1000, 2000, 5000]);
    reveal_with_fuel(last_below, 6);
    reveal_with_fuel(first_above, 6);
    assert(st.drop_last() =~= seq![250u64, 500, 1000, 2000]);
    assert(st.drop_last().drop_last() =~= seq![250u64, 500, 1000]);
    assert(st.drop_last().drop_last().drop_last() =~= seq![250u64, 500]);
    assert(st.drop_last().drop_last().drop_last().drop_last() =~= seq![250u64]);
    assert(st.drop_last().drop_last().drop_last().drop_last().drop_last() =~= Seq::<u64>::empty());
    assert(st.drop_first() =~= seq![500u64, 1000, 2000, 5000]);
    assert(st.drop_first().drop_first() =~= seq![1000u64, 2000, 5000]);
    assert(st.drop_first().drop_first().drop_first() =~= seq![2000u64, 5000]);
    assert(st.drop_first().drop_first().drop_first().drop_first() =~= seq![5000u64]);
    assert(st.drop_first().drop_first().drop_first().drop_first().drop_first() =~= Seq::<u64>::empty());
}

/// Only q (in either case) quits, and only outside a prompt and outside filter editing;
/// a kill is only ever confirmed for the pending prompt.
pub proof fn lemma_outcomes(s: AppView, key: KeyCode, total: usize, page: usize, sel: Option<(u32, Seq<char>)>)
    ensures
        key_step(s, key, total, page, sel).1 is Quit ==> is_char(key, 'q', 'Q') && s.kill_prompt is None
            && s.filter_mode != FilterMode::Editing,
        key_step(s, key, total, page, sel).1 matches Outcome::Kill(pid, name) ==> s.kill_prompt == Some(
            (pid, name),
        ) && is_char(key, 'y', 'Y'),
{
}

/// Every refresh interval reached by stepping is one of the offered steps; stepping
/// faster never slows down and stepping slower never speeds up; between two offered
/// steps, one step slower then one faster (or the reverse) comes back.
pub proof fn lemma_refresh_steps(cur: u64)
    ensures
        REFRESH_STEPS_MS@.contains(faster_ms(cur)),
        REFRESH_STEPS_MS@.contains(slower_ms(cur)),
        faster_ms(cur) <= cur || faster_ms(cur) == REFRESH_STEPS_MS@[0],
        slower_ms(cur) >= cur || slower_ms(cur) == REFRESH_STEPS_MS@.last(),
        REFRESH_STEPS_MS@.contains(cur) && cur != REFRESH_STEPS_MS@.last() ==> faster_ms(slower_ms(cur)) == cur,
        REFRESH_STEPS_MS@.contains(cur) && cur != REFRESH_STEPS_MS@[0] ==> slower_ms(faster_ms(cur)) == cur,
{
    let st = REFRESH_STEPS_MS@;
    assert(st =~= seq![250u64, 500, 1000, 2000, 5000]);
    reveal_with_fuel(last_below, 6);
    reveal_with_fuel(first_above, 6);
    assert(st.drop_last() =~= seq![250u64, 500, 1000, 2000]);
    assert(st.drop_last().drop_last() =~= seq![250u64, 500, 1000]);
    assert(st.drop_last().drop_last().drop_last() =~= seq![250u64, 500]);
    assert(st.drop_last().drop_last().drop_last().drop_last() =~= seq![250u64]);
    assert(st.drop_first() =~= seq![500u64, 1000, 2000, 5000]);
    assert(st.drop_first().drop_first() =~= seq![1000u64, 2000, 5000]);
    assert(st.drop_first().drop_first().drop_first() =~= seq![2000u64, 5000]);
    assert(st.drop_first().drop_first().drop_first().drop_first() =~= seq![5000u64]);
    assert(st.contains(st[0]));
    assert(st.contains(st[1]));
    assert(st.contains(st[2]));
    assert(st.contains(st[3]));
    assert(st.contains(st[4]));
}

} // verus!
