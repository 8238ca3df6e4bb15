use vstd::prelude::*;
use std::time::Duration;

verus! {

/// `Duration` is `Copy`: cloning one gives the same duration.
pub assume_specification[ <Duration as Clone>::clone ](d: &Duration) -> (r: Duration)
    ensures
        r == *d,
;

/// Whether profile events are printed.
#[derive(Clone, Copy, Debug)]
pub struct PrintProfileEvents(pub bool);

impl Default for PrintProfileEvents {
    fn default() -> (r: Self)
        ensures
            !r.0,
    {
        PrintProfileEvents(false)
    }
}

/// How long a part of a frame took.
#[derive(Clone, Debug)]
pub enum ProfileEvent {
    PluginDrawFinished { plugin_name: String, execution_time: Duration },
    PluginUpdateFinished { plugin_name: String, execution_time: Duration },
    PluginSceneScheduleFinished { plugin_name: String, scene_name: String, execution_time: Duration },
    FrameFinished { execution_time: Duration },
}

/// A scene, by name.
#[derive(Clone, Copy, Debug)]
pub struct SceneRef(pub &'static str);

/// What a scene asks of the game.
#[derive(Clone, Copy, Debug)]
pub enum SceneCommand {
    GoTo(SceneRef),
    Exit,
}

/// Whether the game must stop after the current frame.
#[derive(Clone, Copy, Debug)]
pub struct MustQuit(pub bool);

impl Default for MustQuit {
    fn default() -> (r: Self)
        ensures
            !r.0,
    {
        MustQuit(false)
    }
}

/// The `Debug` text of a string: the string quoted, with its special
/// characters escaped.
pub uninterp spec fn str_debug_text(s: Seq<char>) -> Seq<char>;

/// Calls `format!("{:?}", ..)` on a string, which gives its `Debug` text, a
/// function of the string alone.
#[verifier::external_body]
fn debug_text(s: &str) -> (r: String)
    ensures
        r@ == str_debug_text(s@),
{
    format!("{:?}", s)
}

/// The text under which a scene is known: its `Debug` form, the name's
/// `Debug` text inside `SceneRef(` and `)`.
pub open spec fn scene_debug_text(name: Seq<char>) -> Seq<char> {
    "SceneRef("@ + str_debug_text(name) + ")"@
}

/// The `Debug` form of a scene reference.
pub fn scene_text(scene: SceneRef) -> (r: String)
    ensures
        r@ == scene_debug_text(scene.0@),
{
    let mut r = String::from_str("SceneRef(");
    let name = debug_text(scene.0);
    r.append(name.as_str());
    r.append(")");
    r
}

/// What the game loop decides on between frames: the current scene and
/// whether to stop.
#[derive(Debug)]
pub struct LoopState {
    pub current_scene: String,
    pub must_quit: MustQuit,
}

/// The scenes that commands ask to load, in order.
pub open spec fn scenes_asked(cs: Seq<SceneCommand>) -> Seq<Seq<char>>
    decreases cs.len(),
{
    if cs.len() == 0 {
        Seq::empty()
    } else {
        let rest = scenes_asked(cs.drop_last());
        match cs.last() {
            SceneCommand::GoTo(s) => rest.push(s.0@),
            SceneCommand::Exit => rest,
        }
    }
}

pub open spec fn exit_asked(cs: Seq<SceneCommand>) -> bool {
    exists|i: int| 0 <= i < cs.len() && cs[i] is Exit
}

impl LoopState {
    /// Carries out the commands of a frame, in order: each `GoTo` makes its
    /// scene the current one and is reported, to be loaded; `Exit` asks the
    /// game to stop.
    pub fn execute_commands_from_bus(&mut self, commands: Vec<SceneCommand>) -> (loads: Vec<SceneRef>)
        ensures
            loads@.map_values(|s: SceneRef| s.0@) == scenes_asked(commands@),
            final(self).current_scene@ == (if scenes_asked(commands@).len() == 0 {
                old(self).current_scene@
            } else {
                scene_debug_text(scenes_asked(commands@).last())
            }),
            final(self).must_quit.0 == (old(self).must_quit.0 || exit_asked(commands@)),
    {
        let mut loads: Vec<SceneRef> = Vec::new();
        let mut i: usize = 0;
        let ghost cs = commands@;
        let ghost start = self.current_scene@;
        while i < commands.len()
            invariant
                i <= cs.len(),
                cs == commands@,
                loads@.map_values(|s: SceneRef| s.0@) == scenes_asked(cs.take(i as int)),
                self.current_scene@ == (if scenes_asked(cs.take(i as int)).len() == 0 {
                    start
                } else {
                    scene_debug_text(scenes_asked(cs.take(i as int)).last())
                }),
                self.must_quit.0 == (old(self).must_quit.0 || exit_asked(cs.take(i as int))),
            decreases cs.len() - i,
        {
            assert(cs.take(i + 1).drop_last() =~= cs.take(i as int));
            assert(cs.take(i + 1).last() == cs[i as int]);
            match commands[i] {
                SceneCommand::GoTo(scene_ref) => {
                    let ghost prev = loads@;
                    loads.push(scene_ref);
                    assert(loads@.map_values(|s: SceneRef| s.0@) =~= prev.map_values(|s: SceneRef| s.0@).push(
                        scene_ref.0@,
                    ));
                    self.current_scene = scene_text(scene_ref);
                    assert(exit_asked(cs.take(i + 1)) == exit_asked(cs.take(i as int))) by {
                        let a = cs.take(i + 1);
                        let b = cs.take(i as int);
                        if exit_asked(a) {
                            let k = choose|k: int| 0 <= k < a.len() && a[k] is Exit;
                            assert(b[k] is Exit);
                        }
                        if exit_asked(b) {
                            let k = choose|k: int| 0 <= k < b.len() && b[k] is Exit;
                            assert(a[k] is Exit);
                        }
                    }
                },
                SceneCommand::Exit => {
                    self.must_quit = MustQuit(true);
                    assert(cs.take(i + 1)[i as int] is Exit);
                },
            }
            i = i + 1;
        }
        assert(cs.take(cs.len() as int) =~= cs);
        loads
    }

    /// Whether the game loop stops after this frame.
    pub fn must_stop(&self) -> (b: bool)
        ensures
            b == self.must_quit.0,
    {
        self.must_quit.0
    }
}

/// The profile events to print: all of them when printing is on, none
/// otherwise. Every event is taken off the channel either way.
pub fn events_to_print(print: PrintProfileEvents, events: Vec<ProfileEvent>) -> (r: Vec<ProfileEvent>)
    ensures
        r@ == (if print.0 {
            events@
        } else {
            Seq::<ProfileEvent>::empty()
        }),
{
    let PrintProfileEvents(print) = print;
    if print {
        events
    } else {
        Vec::new()
    }
}

/// A step of the game loop, naming plugins by their place.
#[derive(Clone, Copy, Debug, PartialEq, Eq, Structural)]
pub enum FrameAction {
    InitPlugin(usize),
    LoadStartScene,
    UpdatePlugin(usize),
    RunSchedule(usize),
    ExecuteCommands,
    DrawPlugin(usize),
    FinishFrame,
}

/// What comes before the first frame: every plugin is initialised, in
/// order, then the starting scene is loaded.
pub open spec fn start_spec(n: nat) -> Seq<FrameAction> {
    Seq::new(n, |i: int| FrameAction::InitPlugin(i as usize)).push(FrameAction::LoadStartScene)
}

/// The schedules run in a frame: that of each of the first `k` plugins
/// that has one, in order.
pub open spec fn schedules_spec(k: nat, has_schedule: Seq<bool>) -> Seq<FrameAction>
    decreases k,
{
    if k == 0 {
        Seq::empty()
    } else {
        let rest = schedules_spec((k - 1) as nat, has_schedule);
        if has_schedule[k - 1] {
            rest.push(FrameAction::RunSchedule((k - 1) as usize))
        } else {
            rest
        }
    }
}

/// One frame of `n` plugins, of which the scene gave the first
/// `has_schedule.len()` a schedule where the flag is set: every plugin
/// updates, in order; the scene schedules run; the commands of the frame
/// are carried out; every plugin draws, in order; the frame is finished.
pub open spec fn frame_spec(n: nat, has_schedule: Seq<bool>) -> Seq<FrameAction> {
    let k = if has_schedule.len() < n {
        has_schedule.len()
    } else {
        n
    };
    Seq::new(n, |i: int| FrameAction::UpdatePlugin(i as usize)) + schedules_spec(k, has_schedule) + seq![
        FrameAction::ExecuteCommands,
    ] + Seq::new(n, |i: int| FrameAction::DrawPlugin(i as usize)) + seq![FrameAction::FinishFrame]
}

fn push_each(r: &mut Vec<FrameAction>, n: usize, draw: bool)
    ensures
        final(r)@ == old(r)@ + Seq::new(
            n as nat,
            |i: int|
                if draw {
                    FrameAction::DrawPlugin(i as usize)
                } else {
                    FrameAction::UpdatePlugin(i as usize)
                },
        ),
{
    let ghost start = r@;
    let mut i: usize = 0;
    while i < n
        invariant
            i <= n,
            r@ == start + Seq::new(
                i as nat,
                |j: int|
                    if draw {
                        FrameAction::DrawPlugin(j as usize)
                    } else {
                        FrameAction::UpdatePlugin(j as usize)
                    },
            ),
        decreases n - i,
    {
        if draw {
            r.push(FrameAction::DrawPlugin(i));
        } else {
            r.push(FrameAction::UpdatePlugin(i));
        }
        i = i + 1;
        assert(r@ =~= start + Seq::new(
            i as nat,
            |j: int|
                if draw {
                    FrameAction::DrawPlugin(j as usize)
                } else {
                    FrameAction::UpdatePlugin(j as usize)
                },
        ));
    }
}

/// What the game does before its first frame, with `plugins` plugins.
pub fn start_plan(plugins: usize) -> (r: Vec<FrameAction>)
    ensures
        r@ == start_spec(plugins as nat),
{
    let mut r: Vec<FrameAction> = Vec::new();
    let mut i: usize = 0;
    while i < plugins
        invariant
            i <= plugins,
            r@ == Seq::new(i as nat, |j: int| FrameAction::InitPlugin(j as usize)),
        decreases plugins - i,
    {
        r.push(FrameAction::InitPlugin(i));
        i = i + 1;
        assert(r@ =~= Seq::new(i as nat, |j: int| FrameAction::InitPlugin(j as usize)));
    }
    r.push(FrameAction::LoadStartScene);
    r
}

/// What the game does in one frame, with `plugins` plugins of which those
/// flagged in `has_schedule` have a schedule for the current scene.
pub fn frame_plan(plugins: usize, has_schedule: &Vec<bool>) -> (r: Vec<FrameAction>)
    ensures
        r@ == frame_spec(plugins as nat, has_schedule@),
{
    let mut r: Vec<FrameAction> = Vec::new();
    push_each(&mut r, plugins, false);
    let ghost updates = r@;
    let k = if has_schedule.len() < plugins {
        has_schedule.len()
    } else {
        plugins
    };
    let mut i: usize = 0;
    while i < k
        invariant
            i <= k,
            k <= has_schedule@.len(),
            r@ == updates + schedules_spec(i as nat, has_schedule@),
        decreases k - i,
    {
        if has_schedule[i] {
            r.push(FrameAction::RunSchedule(i));
        }
        i = i + 1;
        assert(r@ =~= updates + schedules_spec(i as nat, has_schedule@));
    }
    r.push(FrameAction::ExecuteCommands);
    push_each(&mut r, plugins, true);
    r.push(FrameAction::FinishFrame);
    assert(r@ =~= frame_spec(plugins as nat, has_schedule@));
    r
}

/// The schedules run among the first `k` plugins: exactly those whose flag
/// is set, in increasing order.
proof fn lemma_schedules(k: nat, has_schedule: Seq<bool>)
    requires
        k <= has_schedule.len(),
        k <= usize::MAX,
    ensures
        forall|j: int|
            0 <= j < schedules_spec(k, has_schedule).len() ==> #[trigger] schedules_spec(k, has_schedule)[j] is RunSchedule
                && schedules_spec(k, has_schedule)[j]->RunSchedule_0 < k,
        forall|i: usize|
            #[trigger] schedules_spec(k, has_schedule).contains(FrameAction::RunSchedule(i)) <==> (i < k
                && has_schedule[i as int]),
        forall|p: int, q: int|
            0 <= p < q < schedules_spec(k, has_schedule).len() ==> #[trigger] schedules_spec(k, has_schedule)[p]->RunSchedule_0
                < #[trigger] schedules_spec(k, has_schedule)[q]->RunSchedule_0,
    decreases k,
{
    if k > 0 {
        let rest = schedules_spec((k - 1) as nat, has_schedule);
        lemma_schedules((k - 1) as nat, has_schedule);
        let full = schedules_spec(k, has_schedule);
        let last = FrameAction::RunSchedule((k - 1) as usize);
        if has_schedule[k - 1] {
            assert(full == rest.push(last));
            assert forall|j: int| 0 <= j < full.len() implies #[trigger] full[j] is RunSchedule && full[j]->RunSchedule_0 < k by {
                if j < rest.len() {
                    assert(full[j] == rest[j]);
                }
            }
            assert forall|i: usize| #[trigger] full.contains(FrameAction::RunSchedule(i)) <==> (i < k
                && has_schedule[i as int]) by {
                if full.contains(FrameAction::RunSchedule(i)) {
                    let j = choose|j: int| 0 <= j < full.len() && full[j] == FrameAction::RunSchedule(i);
                    if j < rest.len() {
                        assert(rest[j] == FrameAction::RunSchedule(i));
                        assert(rest.contains(FrameAction::RunSchedule(i)));
                    }
                }
                if i < k && has_schedule[i as int] {
                    if i == k - 1 {
                        assert(full[rest.len() as int] == FrameAction::RunSchedule(i));
                    } else {
                        assert(rest.contains(FrameAction::RunSchedule(i)));
                        let j = choose|j: int| 0 <= j < rest.len() && rest[j] == FrameAction::RunSchedule(i);
                        assert(full[j] == FrameAction::RunSchedule(i));
                    }
                }
            }
            assert forall|p: int, q: int| 0 <= p < q < full.len() implies #[trigger] full[p]->RunSchedule_0
                < #[trigger] full[q]->RunSchedule_0 by {
                assert(full[p] == rest[p]);
                if q < rest.len() {
                    assert(full[q] == rest[q]);
                } else {
                    assert(full[q] == last);
                }
            }
        } else {
            assert(full == rest);
            assert forall|i: usize| #[trigger] full.contains(FrameAction::RunSchedule(i)) <==> (i < k
                && has_schedule[i as int]) by {
                if full.contains(FrameAction::RunSchedule(i)) {
                    let j = choose|j: int| 0 <= j < rest.len() && rest[j] == FrameAction::RunSchedule(i);
                    assert(rest[j]->RunSchedule_0 < k - 1);
                    assert(rest.contains(FrameAction::RunSchedule(i)));
                }
                if i < k && has_schedule[i as int] {
                    assert(i != k - 1);
                    assert(rest.contains(FrameAction::RunSchedule(i)));
                }
            }
        }
    }
}

/// A frame of `n` plugins: every plugin updates, in order; then the scene
/// schedules run, exactly for the plugins `i` below both `n` and
/// `has_schedule.len()` whose flag is set, each once, in increasing order;
/// then the commands are carried out; then every plugin draws, in order;
/// then the frame finishes.
pub proof fn lemma_frame_order(n: nat, has_schedule: Seq<bool>)
    requires
        n <= usize::MAX,
    ensures
        ({
            let f = frame_spec(n, has_schedule);
            let k = if has_schedule.len() < n {
                has_schedule.len()
            } else {
                n
            };
            let c = (f.len() - n - 2) as int;
            &&& f.len() >= 2 * n + 2
            &&& forall|i: int| 0 <= i < n ==> #[trigger] f[i] == FrameAction::UpdatePlugin(i as usize)
            &&& forall|i: usize| #[trigger] f.contains(FrameAction::RunSchedule(i)) <==> (i < k && has_schedule[i as int])
            &&& forall|j: int| n <= j < c ==> #[trigger] f[j] is RunSchedule
            &&& forall|p: int, q: int|
                n <= p < q < c ==> #[trigger] f[p]->RunSchedule_0 < #[trigger] f[q]->RunSchedule_0
            &&& f[c] == FrameAction::ExecuteCommands
            &&& forall|i: int| 0 <= i < n ==> #[trigger] f[c + 1 + i] == FrameAction::DrawPlugin(i as usize)
            &&& f[f.len() - 1] == FrameAction::FinishFrame
        }),
{
    let k = if has_schedule.len() < n {
        has_schedule.len()
    } else {
        n
    };
    lemma_schedules(k, has_schedule);
    let ups = Seq::new(n, |i: int| FrameAction::UpdatePlugin(i as usize));
    let sch = schedules_spec(k, has_schedule);
    let draws = Seq::new(n, |i: int| FrameAction::DrawPlugin(i as usize));
    let f = frame_spec(n, has_schedule);
    assert(f == ups + sch + seq![FrameAction::ExecuteCommands] + draws + seq![FrameAction::FinishFrame]);
    let c = (f.len() - n - 2) as int;
    assert(c == n + sch.len());
    assert forall|j: int| n <= j < c implies #[trigger] f[j] == sch[j - n] by {}
    assert forall|i: usize| #[trigger] f.contains(FrameAction::RunSchedule(i)) <==> (i < k && has_schedule[i as int]) by {
        if f.contains(FrameAction::RunSchedule(i)) {
            let j = choose|j: int| 0 <= j < f.len() && f[j] == FrameAction::RunSchedule(i);
            if j < n {
                assert(f[j] == FrameAction::UpdatePlugin(j as usize));
            } else if j < c {
                assert(sch[j - n] == FrameAction::RunSchedule(i));
                assert(sch.contains(FrameAction::RunSchedule(i)));
            } else if j == c {
            } else if j < c + 1 + n {
                assert(f[j] == draws[j - c - 1]);
            } else {
            }
        }
        if i < k && has_schedule[i as int] {
            assert(sch.contains(FrameAction::RunSchedule(i)));
            let j = choose|j: int| 0 <= j < sch.len() && sch[j] == FrameAction::RunSchedule(i);
            assert(f[n + j] == FrameAction::RunSchedule(i));
        }
    }
    assert forall|p: int, q: int| n <= p < q < c implies #[trigger] f[p]->RunSchedule_0
        < #[trigger] f[q]->RunSchedule_0 by {
        assert(f[p] == sch[p - n] && f[q] == sch[q - n]);
    }
    assert forall|i: int| 0 <= i < n implies #[trigger] f[c + 1 + i] == FrameAction::DrawPlugin(i as usize) by {
        assert(f[c + 1 + i] == draws[i]);
    }
}

/// Before the first frame, the `n` plugins are initialised one by one in
/// their order, and then the starting scene is loaded, once.
pub proof fn lemma_start_order(n: nat)
    ensures
        start_spec(n).len() == n + 1,
        forall|i: int| 0 <= i < n ==> #[trigger] start_spec(n)[i] == FrameAction::InitPlugin(i as usize),
        start_spec(n)[n as int] == FrameAction::LoadStartScene,
{
}

} // verus!
