//! What the dashboard keeps between frames: the selected package, the view,
//! the key bindings that change them, and the short history of CPU load it
//! charts.

use vstd::prelude::*;
use std::collections::VecDeque;
use crate::view::{spec_next, spec_prev};

verus! {

// ---------------------------------------------------------------------------
// Keys and the dashboard's state
// ---------------------------------------------------------------------------

/// The keys the dashboard tells apart.
#[derive(Debug, Clone, Copy, PartialEq, Eq, Structural)]
pub enum Key {
    Char(char),
    Esc,
    Up,
    Down,
    Left,
    Right,
    Tab,
    BackTab,
    Other,
}

/// How many CPU samples the history keeps.
pub const HISTORY_LEN: usize = 60;

/// The last `n` elements of `s` (all of them when there are fewer).
pub open spec fn keep_last<T>(s: Seq<T>, n: nat) -> Seq<T> {
    if s.len() <= n {
        s
    } else {
        s.skip(s.len() - n)
    }
}

/// The selection index kept within a list of `len` packages.
pub open spec fn clamped_selection(selected: nat, len: nat) -> nat {
    if len == 0 {
        0
    } else if selected >= len {
        (len - 1) as nat
    } else {
        selected
    }
}

/// The selection after a key: Up or `k` moves it up, Down or `j` moves it
/// down while a package follows; other keys leave it.
pub open spec fn selection_after_key(selected: usize, key: Key, package_count: usize) -> usize {
    if key == Key::Up || key == Key::Char('k') {
        if selected > 0 {
            (selected - 1) as usize
        } else {
            selected
        }
    } else if key == Key::Down || key == Key::Char('j') {
        if selected + 1 < package_count {
            (selected + 1) as usize
        } else {
            selected
        }
    } else {
        selected
    }
}

/// The view after a key: Right, Tab or `l` go to the next view; Left,
/// BackTab or `h` to the previous one; other keys leave it.
pub open spec fn view_after_key(v: crate::view::View, key: Key) -> crate::view::View {
    if key == Key::Right || key == Key::Tab || key == Key::Char('l') {
        spec_next(v)
    } else if key == Key::Left || key == Key::BackTab || key == Key::Char('h') {
        spec_prev(v)
    } else {
        v
    }
}

/// What the dashboard keeps between frames: the selected package, the view,
/// whether to quit, and the history of CPU load samples (oldest first).
pub struct App<T> {
    pub selected: usize,
    pub view: crate::view::View,
    pub should_quit: bool,
    pub cpu_history: VecDeque<T>,
}

impl<T> App<T> {
    /// The state at start: first package, build view, empty history.
    pub fn new() -> (r: Self)
        ensures
            r.selected == 0,
            r.view == crate::view::View::Building,
            !r.should_quit,
            r.cpu_history@.len() == 0,
    {
        App {
            selected: 0,
            view: crate::view::View::Building,
            should_quit: false,
            cpu_history: VecDeque::with_capacity(HISTORY_LEN),
        }
    }

    /// Takes in a new scan: appends its CPU sample to the history, which keeps
    /// its last `HISTORY_LEN` samples, and keeps the selection within the
    /// `package_count` packages it lists.
    pub fn apply_update(&mut self, cpu_sample: T, package_count: usize)
        ensures
            final(self).cpu_history@ == keep_last(old(self).cpu_history@.push(cpu_sample), HISTORY_LEN as nat),
            final(self).selected == clamped_selection(old(self).selected as nat, package_count as nat),
            final(self).view == old(self).view,
            final(self).should_quit == old(self).should_quit,
    {
        let ghost pushed = self.cpu_history@.push(cpu_sample);
        self.cpu_history.push_back(cpu_sample);
        while self.cpu_history.len() > HISTORY_LEN
            invariant
                self.cpu_history@.len() >= HISTORY_LEN ==> self.cpu_history@ == pushed.skip(
                    pushed.len() - self.cpu_history@.len(),
                ),
                self.cpu_history@.len() < HISTORY_LEN ==> self.cpu_history@ == pushed,
                self.cpu_history@.len() <= pushed.len(),
                pushed == old(self).cpu_history@.push(cpu_sample),
                self.selected == old(self).selected,
                self.view == old(self).view,
                self.should_quit == old(self).should_quit,
            decreases self.cpu_history@.len(),
        {
            self.cpu_history.pop_front();
            proof {
                assert(self.cpu_history@ =~= pushed.skip(pushed.len() - self.cpu_history@.len()));
            }
        }
        proof {
            if pushed.len() <= HISTORY_LEN {
                if self.cpu_history@.len() == HISTORY_LEN {
                    assert(pushed.skip(0) =~= pushed);
                }
            }
        }
        let len = package_count;
        if len == 0 {
            self.selected = 0;
        } else if self.selected >= len {
            self.selected = len - 1;
        }
    }

    /// Acts on a key: `q` or Esc quits; Up or `k` and Down or `j` move the
    /// selection within the `package_count` packages; Right, Tab or `l` and
    /// Left, BackTab or `h` switch to the next and the previous view.
    pub fn handle_key(&mut self, key: Key, package_count: usize)
        ensures
            final(self).cpu_history@ == old(self).cpu_history@,
            final(self).should_quit == (old(self).should_quit || key == Key::Esc || key == Key::Char('q')),
            final(self).selected == selection_after_key(old(self).selected, key, package_count),
            final(self).view == view_after_key(old(self).view, key),
    {
        match key {
            Key::Char('q') | Key::Esc => self.should_quit = true,
            Key::Up | Key::Char('k') => {
                if self.selected > 0 {
                    self.selected -= 1;
                }
            },
            Key::Down | Key::Char('j') => {
                let len = package_count;
                if len > 0 && self.selected < len - 1 {
                    self.selected += 1;
                }
            },
            Key::Right | Key::Tab | Key::Char('l') => {
                self.view = self.view.next();
            },
            Key::Left | Key::BackTab | Key::Char('h') => {
                self.view = self.view.prev();
            },
            _ => {},
        }
    }
}

/// The selection stays on a listed package (or at 0 when none is listed):
/// an update puts it there, and keys keep it there.
pub proof fn lemma_selection_in_range(selected: usize, len: usize, key: Key)
    ensures
        len > 0 ==> clamped_selection(selected as nat, len as nat) < len,
        len == 0 ==> clamped_selection(selected as nat, len as nat) == 0,
        selected < len ==> clamped_selection(selected as nat, len as nat) == selected,
        selected < len ==> selection_after_key(selected, key, len) < len,
        selected == 0 ==> selection_after_key(selected, key, 0) == 0,
{
}

/// Moving down and then up returns to the same package, when there is one
/// below; moving up and then down does too, when there is one above.
pub proof fn lemma_down_up(selected: usize, len: usize)
    ensures
        selected + 1 < len ==> selection_after_key(selection_after_key(selected, Key::Down, len), Key::Up, len) == selected,
        0 < selected < len ==> selection_after_key(selection_after_key(selected, Key::Up, len), Key::Down, len) == selected,
{
}

/// The history never holds more than `HISTORY_LEN` samples, and its last
/// sample is the newest.
pub proof fn lemma_history_bounded<T>(h: Seq<T>, sample: T)
    ensures
        keep_last(h.push(sample), HISTORY_LEN as nat).len() <= HISTORY_LEN,
        keep_last(h.push(sample), HISTORY_LEN as nat).last() == sample,
{
}

/// `j` moves as Down does and `k` as Up does: Down goes to the next package
/// while there is one, Up to the previous while there is one, and no other
/// key moves the selection. `l` and Tab go where Right goes, the next view;
/// `h` and BackTab where Left goes, the previous view.
pub proof fn lemma_key_bindings(selected: usize, len: usize, key: Key, v: crate::view::View)
    ensures
        selection_after_key(selected, Key::Char('j'), len) == selection_after_key(selected, Key::Down, len),
        selection_after_key(selected, Key::Char('k'), len) == selection_after_key(selected, Key::Up, len),
        selected + 1 < len ==> selection_after_key(selected, Key::Down, len) == selected + 1,
        selected + 1 >= len ==> selection_after_key(selected, Key::Down, len) == selected,
        selected > 0 ==> selection_after_key(selected, Key::Up, len) == selected - 1,
        selection_after_key(0, Key::Up, len) == 0,
        !(key == Key::Up || key == Key::Down || key == Key::Char('j') || key == Key::Char('k'))
            ==> selection_after_key(selected, key, len) == selected,
        view_after_key(v, Key::Right) == spec_next(v),
        view_after_key(v, Key::Tab) == spec_next(v),
        view_after_key(v, Key::Char('l')) == spec_next(v),
        view_after_key(v, Key::Left) == spec_prev(v),
        view_after_key(v, Key::BackTab) == spec_prev(v),
        view_after_key(v, Key::Char('h')) == spec_prev(v),
        !(key == Key::Right || key == Key::Tab || key == Key::Char('l') || key == Key::Left || key
            == Key::BackTab || key == Key::Char('h')) ==> view_after_key(v, key) == v,
{
}

/// Until the history is full a new sample is added and none dropped; once
/// it holds `HISTORY_LEN` samples, each new one drops the oldest.
pub proof fn lemma_history_drops_oldest<T>(h: Seq<T>, sample: T)
    requires
        h.len() <= HISTORY_LEN,
    ensures
        h.len() < HISTORY_LEN ==> keep_last(h.push(sample), HISTORY_LEN as nat) == h.push(sample),
        h.len() == HISTORY_LEN ==> keep_last(h.push(sample), HISTORY_LEN as nat) == h.drop_first().push(
            sample,
        ),
{
    if h.len() == HISTORY_LEN {
        assert(h.push(sample).skip(1) =~= h.drop_first().push(sample));
    }
}

} // verus!
