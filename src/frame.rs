use vstd::prelude::*;

verus! {

/// The axis along which the view center moves.
#[derive(Clone, Copy, Debug, PartialEq, Eq, Structural)]
pub enum Axis {
    Horizontal,
    Vertical,
}

/// A navigation command for the viewport; each direction is `-1` or `+1`.
#[derive(Clone, Copy, Debug, PartialEq, Eq, Structural)]
pub enum Command {
    /// Move the center along an axis by one pan step.
    Pan(Axis, i8),
    /// Change the zoom exponent by one zoom step.
    Zoom(i8),
}

/// The navigation keys held down during one frame.
#[derive(Clone, Copy, Debug, Default)]
pub struct Keys {
    pub up: bool,
    pub down: bool,
    pub left: bool,
    pub right: bool,
    pub zoom_in: bool,
    pub zoom_out: bool,
}

/// Whether any navigation key is held.
pub open spec fn any_pressed(k: Keys) -> bool {
    k.up || k.down || k.left || k.right || k.zoom_in || k.zoom_out
}

/// The commands that the held keys issue, in this order: up, down, left, right, zoom in,
/// zoom out. Up and left move toward smaller coordinates.
pub open spec fn commands_for(k: Keys) -> Seq<Command> {
    let s0 = Seq::<Command>::empty();
    let s1 = if k.up { s0.push(Command::Pan(Axis::Vertical, -1i8)) } else { s0 };
    let s2 = if k.down { s1.push(Command::Pan(Axis::Vertical, 1i8)) } else { s1 };
    let s3 = if k.left { s2.push(Command::Pan(Axis::Horizontal, -1i8)) } else { s2 };
    let s4 = if k.right { s3.push(Command::Pan(Axis::Horizontal, 1i8)) } else { s3 };
    let s5 = if k.zoom_in { s4.push(Command::Zoom(1i8)) } else { s4 };
    if k.zoom_out { s5.push(Command::Zoom(-1i8)) } else { s5 }
}

/// Turns the keys held in one frame into navigation commands, and marks the view changed
/// when there is at least one.
pub fn check_input(keys: &Keys, is_changed: &mut bool) -> (cmds: Vec<Command>)
    ensures
        cmds@ == commands_for(*keys),
        *final(is_changed) == (*old(is_changed) || cmds@.len() > 0),
{
    let mut cmds: Vec<Command> = Vec::new();
    if keys.up {
        cmds.push(Command::Pan(Axis::Vertical, -1i8));
    }
    if keys.down {
        cmds.push(Command::Pan(Axis::Vertical, 1));
    }
    if keys.left {
        cmds.push(Command::Pan(Axis::Horizontal, -1i8));
    }
    if keys.right {
        cmds.push(Command::Pan(Axis::Horizontal, 1));
    }
    if keys.zoom_in {
        cmds.push(Command::Zoom(1));
    }
    if keys.zoom_out {
        cmds.push(Command::Zoom(-1));
    }
    if cmds.len() > 0 {
        *is_changed = true;
    }
    cmds
}

/// What one frame does: the commands to apply to the viewport, then whether to recompute
/// every pixel before presenting the buffer.
pub struct FramePlan {
    pub commands: Vec<Command>,
    pub render: bool,
}

/// The render loop's state: whether the buffer is stale relative to the viewport.
pub struct FrameState {
    dirty: bool,
}

impl FrameState {
    /// Whether the buffer no longer matches the viewport.
    pub closed spec fn is_dirty_spec(&self) -> bool {
        self.dirty
    }

    /// Whether a frame from this state with these keys recomputes the buffer.
    pub open spec fn renders(&self, k: Keys) -> bool {
        self.is_dirty_spec() || commands_for(k).len() > 0
    }

    /// The state at startup: dirty, so that the first frame renders.
    pub fn new() -> (s: FrameState)
        ensures
            s.is_dirty_spec(),
    {
        FrameState { dirty: true }
    }

    pub fn is_dirty(&self) -> (b: bool)
        ensures
            b == self.is_dirty_spec(),
    {
        self.dirty
    }

    /// Plans one frame: the commands from the held keys, and a full render when the view
    /// was dirty or changed. A full render leaves the state clean.
    pub fn frame(&mut self, keys: &Keys) -> (plan: FramePlan)
        ensures
            plan.commands@ == commands_for(*keys),
            plan.render == old(self).renders(*keys),
            !final(self).is_dirty_spec(),
    {
        let mut changed = self.dirty;
        let commands = check_input(keys, &mut changed);
        self.dirty = false;
        FramePlan { commands, render: changed }
    }
}

/// A frame with no key held issues no command; from a clean state it plans no render, so
/// the buffer it presents is the one the previous frame presented.
pub proof fn lemma_idle_frame_keeps_buffer(s: FrameState, k: Keys)
    requires
        !s.is_dirty_spec(),
        !any_pressed(k),
    ensures
        commands_for(k).len() == 0,
        !s.renders(k),
{
}

/// Every command issued has a direction of `-1` or `+1`, and some key is held exactly when
/// a command is issued.
pub proof fn lemma_commands_well_formed(k: Keys)
    ensures
        forall|i: int|
            0 <= i < commands_for(k).len() ==> match #[trigger] commands_for(k)[i] {
                Command::Pan(_, d) => d == 1 || d == -1,
                Command::Zoom(d) => d == 1 || d == -1,
            },
        any_pressed(k) <==> commands_for(k).len() > 0,
{
}

} // verus!
