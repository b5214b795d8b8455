use vstd::prelude::*;
use crate::action::{Action, TabId, steps};
use crate::bindings::{Binding, binding_map, lookup};
use crate::path::{base_name, base_name_of};
use crate::script::{render_script, script_text};

verus! {

/// The sorting session: the images being sorted, the cursor, the log of
/// recorded actions and the state of the interactive views.
pub struct App {
    pub tab: usize,
    pub script_offset: (u16, u16),
    pub images: Vec<String>,
    pub current: usize,
    pub key_mapping: Vec<Binding>,
    pub actions: Vec<Action>,
    pub output: String,
    pub enable_input: bool,
    pub input: Vec<char>,
    pub input_idx: usize,
    pub last_save: Option<u64>,
}

/// The log after one undo: the tail goes unless it is a mkdir.
pub open spec fn popped(s: Seq<Action>) -> Seq<Action> {
    if s.len() > 0 && s.last().poppable() {
        s.drop_last()
    } else {
        s
    }
}

/// The log after `n` undos.
pub open spec fn popped_n(s: Seq<Action>, n: nat) -> Seq<Action>
    decreases n,
{
    if n == 0 {
        s
    } else {
        popped(popped_n(s, (n - 1) as nat))
    }
}

proof fn lemma_steps_push(s: Seq<Action>, a: Action)
    ensures
        steps(s.push(a)) == steps(s) + a.step(),
        s.push(a).drop_last() == s,
{
    assert(s.push(a).drop_last() =~= s);
}

impl App {
    /// The session's consistency: the cursor lies within the images and
    /// equals the number of images that the logged actions decide, and the
    /// tab is one of the two views, and the script view is scrolled at most
    /// three lines past the number of actions.
    pub open spec fn wf(&self) -> bool {
        &&& self.current <= self.images.len()
        &&& self.current == steps(self.actions@)
        &&& self.tab < 2
        &&& self.script_offset.0 <= self.actions@.len() + 3
    }

    /// The rename buffer, the output path and the save time are as in `o`.
    pub open spec fn same_input(&self, o: &App) -> bool {
        &&& self.output == o.output
        &&& self.enable_input == o.enable_input
        &&& self.input == o.input
        &&& self.input_idx == o.input_idx
        &&& self.last_save == o.last_save
    }

    /// The fields that only the views touch are as in `o`.
    pub open spec fn same_log(&self, o: &App) -> bool {
        &&& self.images == o.images
        &&& self.current == o.current
        &&& self.key_mapping == o.key_mapping
        &&& self.actions == o.actions
        &&& self.output == o.output
    }

    /// A session at the first image, with the bindings and the mkdir actions
    /// that they asked for already in the log.
    pub fn new(images: Vec<String>, key_mapping: Vec<Binding>, actions: Vec<Action>, output: String) -> (r: App)
        requires
            steps(actions@) == 0,
        ensures
            r.wf(),
            r.images == images,
            r.key_mapping == key_mapping,
            r.actions == actions,
            r.output == output,
            r.current == 0,
            r.tab == 0,
            r.script_offset == (0u16, 0u16),
            !r.enable_input,
            r.input@.len() == 0,
            r.input_idx == 0,
            r.last_save is None,
    {
        App {
            tab: 0,
            script_offset: (0, 0),
            images,
            current: 0,
            key_mapping,
            actions,
            output,
            enable_input: false,
            input: Vec::new(),
            input_idx: 0,
            last_save: None,
        }
    }

    /// The image being sorted, or none once every image has been decided.
    pub fn current_image(&self) -> (r: Option<String>)
        requires
            self.wf(),
        ensures
            self.current == self.images.len() ==> r is None,
            self.current < self.images.len() ==> r == Some(self.images@[self.current as int]),
    {
        if self.current == self.images.len() {
            return None;
        }
        Some(self.images[self.current].clone())
    }

    /// Undoes the last decision: the tail action leaves the log unless it is
    /// a mkdir, and the cursor goes back by its step.
    pub fn pop_action(&mut self)
        requires
            old(self).wf(),
        ensures
            final(self).wf(),
            final(self).actions@ == popped(old(self).actions@),
            old(self).actions@.len() == 0 ==> *final(self) == *old(self),
            old(self).actions@.len() > 0 ==> final(self).current == old(self).current
                - old(self).actions@.last().step(),
            forall|i: int|
                0 <= i < old(self).actions@.len() && old(self).actions@[i] is MkDir ==> i
                    < final(self).actions@.len() && final(self).actions@[i] == old(
                    self,
                ).actions@[i],
            final(self).images == old(self).images,
            final(self).key_mapping == old(self).key_mapping,
            final(self).tab == old(self).tab,
            final(self).same_input(old(self)),
            final(self).script_offset == (if old(self).script_offset.0 > final(self).actions@.len()
                + 3 {
                (final(self).actions@.len() + 3) as u16
            } else {
                old(self).script_offset.0
            }, old(self).script_offset.1),
    {
        let n = self.actions.len();
        if n > 0 {
            let step = self.actions[n - 1].queue_step();
            let poppable = self.actions[n - 1].is_poppable();
            let ghost before = self.actions@;
            proof {
                lemma_steps_push(before.drop_last(), before.last());
                assert(before.drop_last().push(before.last()) =~= before);
            }
            if poppable {
                let _ = self.actions.pop();
            }
            self.current = self.current - step;
            let (y, x) = self.script_offset;
            let m = self.actions.len();
            if (y as usize) > m && (y as usize) - m > 3 {
                self.script_offset = ((m + 3) as u16, x);
            }
        }
    }

    /// Records a decision on the image being sorted and moves the cursor on
    /// by its step; does nothing once every image has been decided.
    pub fn push_action(&mut self, action: Action)
        requires
            old(self).wf(),
        ensures
            final(self).wf(),
            old(self).current == old(self).images.len() ==> *final(self) == *old(self),
            old(self).current < old(self).images.len() ==> {
                &&& final(self).actions@ == old(self).actions@.push(action)
                &&& final(self).current == old(self).current + action.step()
            },
            final(self).images == old(self).images,
            final(self).key_mapping == old(self).key_mapping,
            final(self).tab == old(self).tab,
            final(self).script_offset == old(self).script_offset,
            final(self).same_input(old(self)),
    {
        if self.current == self.images.len() {
            return;
        }
        proof {
            lemma_steps_push(self.actions@, action);
        }
        self.current = self.current + action.queue_step();
        self.actions.push(action);
    }

    pub fn current_tab(&self) -> (r: TabId)
        requires
            self.wf(),
        ensures
            r == (if self.tab == 0 { TabId::Main } else { TabId::Script }),
    {
        if self.tab == 0 {
            TabId::Main
        } else {
            TabId::Script
        }
    }

    /// Goes to the other view, scrolled back to the start.
    pub fn switch_tab(&mut self)
        requires
            old(self).wf(),
        ensures
            final(self).wf(),
            final(self).tab == (old(self).tab + 1) % 2,
            final(self).script_offset == (0u16, 0u16),
            final(self).same_log(old(self)),
            final(self).same_input(old(self)),
    {
        self.tab = (self.tab + 1) % 2;
        self.script_offset = (0, 0);
    }

    /// One line up in the script view, never above the first.
    pub fn scroll_up(&mut self)
        requires
            old(self).wf(),
        ensures
            final(self).wf(),
            final(self).script_offset.0 == (if old(self).script_offset.0 > 0 {
                (old(self).script_offset.0 - 1) as u16
            } else {
                0u16
            }),
            final(self).script_offset.1 == old(self).script_offset.1,
            final(self).tab == old(self).tab,
            final(self).same_log(old(self)),
            final(self).same_input(old(self)),
    {
        let (y, x) = self.script_offset;
        if y > 0 {
            self.script_offset = (y - 1, x);
        }
    }

    /// One line down in the script view, while the offset is below the
    /// number of actions plus three (and below the largest `u16`).
    pub fn scroll_down(&mut self)
        requires
            old(self).wf(),
        ensures
            final(self).wf(),
            final(self).script_offset.0 == (if old(self).script_offset.0 < old(self).actions@.len()
                + 3 && old(self).script_offset.0 < u16::MAX {
                (old(self).script_offset.0 + 1) as u16
            } else {
                old(self).script_offset.0
            }),
            final(self).script_offset.0 <= final(self).actions@.len() + 3,
            final(self).script_offset.1 == old(self).script_offset.1,
            final(self).tab == old(self).tab,
            final(self).same_log(old(self)),
            final(self).same_input(old(self)),
    {
        let (y, x) = self.script_offset;
        let n = self.actions.len();
        if y < u16::MAX && ((y as usize) < n || (y as usize) - n < 3) {
            self.script_offset = (y + 1, x);
        }
    }

    /// One column left in the script view, never before the first.
    pub fn scroll_left(&mut self)
        requires
            old(self).wf(),
        ensures
            final(self).wf(),
            final(self).script_offset.1 == (if old(self).script_offset.1 > 0 {
                (old(self).script_offset.1 - 1) as u16
            } else {
                0u16
            }),
            final(self).script_offset.0 == old(self).script_offset.0,
            final(self).tab == old(self).tab,
            final(self).same_log(old(self)),
            final(self).same_input(old(self)),
    {
        let (y, x) = self.script_offset;
        if x > 0 {
            self.script_offset = (y, x - 1);
        }
    }

    /// One column right in the script view (up to the largest `u16`).
    pub fn scroll_right(&mut self)
        requires
            old(self).wf(),
        ensures
            final(self).wf(),
            final(self).script_offset.1 == (if old(self).script_offset.1 < u16::MAX {
                (old(self).script_offset.1 + 1) as u16
            } else {
                u16::MAX
            }),
            final(self).script_offset.0 == old(self).script_offset.0,
            final(self).tab == old(self).tab,
            final(self).same_log(old(self)),
            final(self).same_input(old(self)),
    {
        let (y, x) = self.script_offset;
        if x < u16::MAX {
            self.script_offset = (y, x + 1);
        }
    }

    /// Starts a rename of the image being sorted: the input buffer takes the
    /// image's base name, with the edit point at its end.
    pub fn rename_current_image(&mut self)
        requires
            old(self).wf(),
        ensures
            final(self).wf(),
            final(self).same_log(old(self)),
            final(self).tab == old(self).tab,
            final(self).script_offset == old(self).script_offset,
            final(self).last_save == old(self).last_save,
            ({
                let o = old(self);
                if o.current < o.images.len() && base_name(o.images@[o.current as int]@) is Some {
                    let name = base_name(o.images@[o.current as int]@)->Some_0;
                    &&& final(self).input@ == name
                    &&& final(self).input_idx == name.len()
                    &&& final(self).enable_input
                } else {
                    &&& final(self).input == o.input
                    &&& final(self).input_idx == o.input_idx
                    &&& final(self).enable_input == o.enable_input
                }
            }),
    {
        if let Some(path) = self.current_image() {
            if let Some(name) = base_name_of(path.as_str()) {
                self.input_idx = name.len();
                self.input = name;
                self.enable_input = true;
            }
        }
    }

    /// The destination bound to `key`, if any.
    pub fn destination(&self, key: char) -> (r: Option<String>)
        ensures
            match r {
                Some(d) => binding_map(self.key_mapping@).contains_key(key) && d@ == binding_map(
                    self.key_mapping@,
                )[key],
                None => !binding_map(self.key_mapping@).contains_key(key),
            },
    {
        lookup(&self.key_mapping, key)
    }

    /// The shell script that carries out the logged actions.
    pub fn script(&self) -> (r: String)
        ensures
            r@ == script_text(self.actions@),
    {
        render_script(&self.actions)
    }

    /// Notes that the script was saved at time `at`.
    pub fn mark_saved(&mut self, at: u64)
        ensures
            final(self).last_save == Some(at),
            final(self).same_log(old(self)),
            final(self).tab == old(self).tab,
            final(self).script_offset == old(self).script_offset,
            final(self).input == old(self).input,
            final(self).input_idx == old(self).input_idx,
            final(self).enable_input == old(self).enable_input,
    {
        self.last_save = Some(at);
    }
}

impl Default for App {
    /// A session with no images, bindings or actions.
    fn default() -> (r: App)
        ensures
            r.wf(),
            r.images@.len() == 0,
            r.key_mapping@.len() == 0,
            r.actions@.len() == 0,
            r.output@.len() == 0,
            r.current == 0,
            r.tab == 0,
            r.script_offset == (0u16, 0u16),
            !r.enable_input,
            r.input@.len() == 0,
            r.input_idx == 0,
            r.last_save is None,
    {
        App::new(Vec::new(), Vec::new(), Vec::new(), String::new())
    }
}

/// Any number of undos keeps every mkdir of the log in its place.
pub proof fn lemma_mkdir_survives_pops(s: Seq<Action>, n: nat, i: int)
    requires
        0 <= i < s.len(),
        s[i] is MkDir,
    ensures
        i < popped_n(s, n).len(),
        popped_n(s, n)[i] == s[i],
    decreases n,
{
    if n > 0 {
        lemma_mkdir_survives_pops(s, (n - 1) as nat, i);
        let t = popped_n(s, (n - 1) as nat);
        if t.len() > 0 && t.last().poppable() {
            assert(i != t.len() - 1);
        }
    }
}

} // verus!
