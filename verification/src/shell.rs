//! The presentation-shell state around the store: the input buffer for a new
//! task and the edit popup, the latter modeled as an explicit state value so
//! that no invalid combination (popup open with no selected task) exists.

use vstd::prelude::*;
use vstd::string::StrSliceExecFns;
use crate::store::TaskRepository;
use crate::store::spec_add;
use crate::store::spec_edit;

verus! {

/// The transient edit-popup state: either no popup, or one task being edited
/// with an in-progress draft of its description.
pub enum EditState {
    Idle,
    Editing { id: usize, draft: String },
}

/// The application state: the store, the text buffer for a new task, and the
/// edit-popup state.
pub struct ToDoApp {
    pub manager: TaskRepository,
    pub new_description: String,
    pub edit: EditState,
}

impl ToDoApp {
    /// A fresh shell around an already loaded store: empty input buffer and
    /// no edit popup open.
    pub fn new(manager: TaskRepository) -> (r: ToDoApp)
        ensures
            r.manager == manager,
            r.new_description@ == Seq::<char>::empty(),
            r.edit is Idle,
    {
        ToDoApp { manager, new_description: String::new(), edit: EditState::Idle }
    }

    /// The add-button action: when the input buffer is not empty, add its
    /// text as a new task and clear the buffer. Reports whether the store
    /// changed, so the caller knows to persist it.
    pub fn submit_new_task(&mut self) -> (changed: bool)
        requires
            old(self).manager.next_id < usize::MAX,
        ensures
            changed == (old(self).new_description@.len() > 0),
            changed ==> final(self).manager@ == spec_add(
                old(self).manager@,
                old(self).new_description@,
            ) && final(self).new_description@ == Seq::<char>::empty(),
            !changed ==> *final(self) == *old(self),
            final(self).edit == old(self).edit,
    {
        if self.new_description.as_str().unicode_len() > 0 {
            let mut description = String::new();
            core::mem::swap(&mut self.new_description, &mut description);
            self.manager.add_task(description);
            true
        } else {
            false
        }
    }

    /// The edit-button action: open the popup for the given task id, seeding
    /// the draft with the task's current description.
    pub fn begin_edit(&mut self, id: usize, current: String)
        ensures
            final(self).manager == old(self).manager,
            final(self).new_description == old(self).new_description,
            final(self).edit == (EditState::Editing { id, draft: current }),
    {
        self.edit = EditState::Editing { id, draft: current };
    }

    /// The save-button action in the popup: apply the draft to the task being
    /// edited and close the popup. Reports whether the store changed.
    pub fn save_edit(&mut self) -> (changed: bool)
        ensures
            changed == (old(self).edit is Editing),
            final(self).edit is Idle,
            final(self).new_description == old(self).new_description,
            old(self).edit matches EditState::Editing { id, draft } ==> final(self).manager@
                == spec_edit(old(self).manager@, id, draft@),
            old(self).edit is Idle ==> final(self).manager == old(self).manager,
    {
        let mut taken = EditState::Idle;
        core::mem::swap(&mut self.edit, &mut taken);
        match taken {
            EditState::Editing { id, draft } => {
                self.manager.edit_task(id, draft);
                true
            },
            EditState::Idle => false,
        }
    }

    /// The cancel-button action: close the popup and change nothing else.
    pub fn cancel_edit(&mut self)
        ensures
            final(self).manager == old(self).manager,
            final(self).new_description == old(self).new_description,
            final(self).edit is Idle,
    {
        self.edit = EditState::Idle;
    }
}

} // verus!
