//! What the command lines ask for.

use vstd::prelude::*;

use crate::text::{chars_between, chars_of, same_text};
use crate::viewer::Method;

verus! {

/// What the headless renderer is asked to draw.
pub enum Input {
    /// Both panes of a built-in scene.
    Dual,
    /// The demo scene, perhaps turned.
    Demo { yaw: Option<String>, pitch: Option<String> },
    /// A `.ply` file that the camera is put in front of, perhaps turned.
    PlyOrbit { path: String, yaw: Option<String>, pitch: Option<String> },
    /// A `.ply` file with the camera and background of another file.
    PlyView { path: String, view: String },
    /// A file with gaussians, camera and background.
    Scene { path: String },
}

/// What the headless renderer is asked to do.
pub struct Job {
    /// Composite as standard splatting does.
    pub gs: bool,
    pub input: Input,
    /// The image file to write.
    pub out_path: String,
}

/// What an [`Input`] asks for, as a mathematical value.
#[verifier::ext_equal]
pub enum InputModel {
    Dual,
    Demo { yaw: Option<Seq<char>>, pitch: Option<Seq<char>> },
    PlyOrbit { path: Seq<char>, yaw: Option<Seq<char>>, pitch: Option<Seq<char>> },
    PlyView { path: Seq<char>, view: Seq<char> },
    Scene { path: Seq<char> },
}

/// What a [`Job`] asks for, as a mathematical value.
#[verifier::ext_equal]
pub struct JobModel {
    pub gs: bool,
    pub input: InputModel,
    pub out_path: Seq<char>,
}

/// What an optional text says.
pub open spec fn optional(text: Option<String>) -> Option<Seq<char>> {
    match text {
        Some(text) => Some(text@),
        None => None,
    }
}

impl View for Input {
    type V = InputModel;

    open spec fn view(&self) -> InputModel {
        match *self {
            Input::Dual => InputModel::Dual,
            Input::Demo { yaw, pitch } => InputModel::Demo {
                yaw: optional(yaw),
                pitch: optional(pitch),
            },
            Input::PlyOrbit { path, yaw, pitch } => InputModel::PlyOrbit {
                path: path@,
                yaw: optional(yaw),
                pitch: optional(pitch),
            },
            Input::PlyView { path, view } => InputModel::PlyView { path: path@, view: view@ },
            Input::Scene { path } => InputModel::Scene { path: path@ },
        }
    }
}

impl View for Job {
    type V = JobModel;

    open spec fn view(&self) -> JobModel {
        JobModel { gs: self.gs, input: self.input@, out_path: self.out_path@ }
    }
}

impl Job {
    /// How the gaussians are composited.
    pub fn method(&self) -> (method: Method)
        ensures
            method == if self.gs {
                Method::Gs
            } else {
                Method::Wsr
            },
    {
        if self.gs {
            Method::Gs
        } else {
            Method::Wsr
        }
    }

    /// The size of the image, where the input does not come with one of its own.
    pub fn image_size(&self) -> (size: Option<(u32, u32)>)
        ensures
            size == match self.input@ {
                InputModel::Dual => Some((1280u32, 720u32)),
                InputModel::Demo { .. } | InputModel::PlyOrbit { .. } => Some((800u32, 800u32)),
                InputModel::PlyView { .. } | InputModel::Scene { .. } => None,
            },
    {
        match &self.input {
            Input::Dual => Some((1280, 720)),
            Input::Demo { .. } | Input::PlyOrbit { .. } => Some((800, 800)),
            Input::PlyView { .. } | Input::Scene { .. } => None,
        }
    }
}

/// Whether `text` ends with `suffix`.
pub open spec fn has_suffix(text: Seq<char>, suffix: Seq<char>) -> bool {
    suffix.len() <= text.len() && text.skip(text.len() - suffix.len()) == suffix
}

/// Whether `text` ends with `suffix`.
fn ends_with(text: &str, suffix: &str) -> (yes: bool)
    ensures
        yes == has_suffix(text@, suffix@),
{
    let chars = chars_of(text);
    let tail = chars_of(suffix);
    if tail.len() > chars.len() {
        return false;
    }
    let end = chars_between(chars.as_slice(), chars.len() - tail.len(), chars.len());
    assert(end@ =~= text@.skip(text@.len() - suffix@.len()));
    same_text(end.as_slice(), suffix)
}

/// The argument at `i`, if there is one.
pub open spec fn arg(args: Seq<Seq<char>>, i: int) -> Option<Seq<char>> {
    if i < args.len() {
        Some(args[i])
    } else {
        None
    }
}

/// What is to be drawn, where the arguments begin with the input at `at` and the output file
/// behind it.
pub open spec fn input_at(args: Seq<Seq<char>>, at: int) -> InputModel {
    let input = args[at];
    if input == "--dual"@ {
        InputModel::Dual
    } else if input == "--demo"@ {
        InputModel::Demo { yaw: arg(args, at + 2), pitch: arg(args, at + 3) }
    } else if has_suffix(input, ".ply"@) {
        if at + 2 >= args.len() || args[at + 2] == "--orbit"@ {
            InputModel::PlyOrbit {
                path: input,
                yaw: arg(args, at + 3),
                pitch: arg(args, at + 4),
            }
        } else {
            InputModel::PlyView { path: input, view: args[at + 2] }
        }
    } else {
        InputModel::Scene { path: input }
    }
}

/// What the arguments (without the program's name) ask for: perhaps `--gs`, then the input, the
/// output file, and what belongs to the input. Nothing if the input or the output is missing.
pub open spec fn job_of(args: Seq<Seq<char>>) -> Option<JobModel> {
    let gs = args.len() > 0 && args[0] == "--gs"@;
    let at: int = if gs {
        1
    } else {
        0
    };
    if args.len() < at + 2 {
        None
    } else {
        Some(JobModel { gs, input: input_at(args, at), out_path: args[at + 1] })
    }
}

/// The argument at `i`, if there is one.
fn arg_at(args: &Vec<String>, i: usize) -> (found: Option<String>)
    ensures
        optional(found) == arg(args.deep_view(), i as int),
{
    if i < args.len() {
        let found = args[i].clone();
        assert(args.deep_view()[i as int] == found@);
        Some(found)
    } else {
        None
    }
}

/// Whether an argument is this text.
fn is_arg(text: &String, expected: &str) -> (yes: bool)
    ensures
        yes == (text@ == expected@),
{
    let chars = chars_of(text.as_str());
    same_text(chars.as_slice(), expected)
}

/// Reads the arguments of the headless renderer (without the program's name).
pub fn parse_args(args: &Vec<String>) -> (job: Option<Job>)
    ensures
        job is Some <==> job_of(args.deep_view()) is Some,
        job is Some ==> (job->0)@ == job_of(args.deep_view())->0,
        job is Some <==> args@.len() >= 2 && (args@[0]@ == "--gs"@ ==> args@.len() >= 3),
        job is Some ==> {
            let at: int = if args@[0]@ == "--gs"@ {
                1
            } else {
                0
            };
            &&& job->0.gs == (args@[0]@ == "--gs"@)
            &&& job->0.out_path@ == args@[at + 1]@
            &&& match job->0.input {
                Input::Dual => args@[at]@ == "--dual"@,
                Input::Demo { yaw, pitch } => {
                    &&& args@[at]@ == "--demo"@
                    &&& yaw is Some <==> at + 2 < args@.len()
                    &&& yaw is Some ==> yaw->0@ == args@[at + 2]@
                    &&& pitch is Some <==> at + 3 < args@.len()
                    &&& pitch is Some ==> pitch->0@ == args@[at + 3]@
                },
                Input::PlyOrbit { path, yaw, pitch } => {
                    &&& path@ == args@[at]@
                    &&& at + 2 < args@.len() ==> args@[at + 2]@ == "--orbit"@
                    &&& yaw is Some <==> at + 3 < args@.len()
                    &&& yaw is Some ==> yaw->0@ == args@[at + 3]@
                    &&& pitch is Some <==> at + 4 < args@.len()
                    &&& pitch is Some ==> pitch->0@ == args@[at + 4]@
                },
                Input::PlyView { path, view } => {
                    &&& path@ == args@[at]@
                    &&& at + 2 < args@.len()
                    &&& view@ == args@[at + 2]@
                    &&& view@ != "--orbit"@
                },
                Input::Scene { path } => path@ == args@[at]@,
            }
        },
{
    let ghost model = args.deep_view();
    assert(model.len() == args@.len());
    assert(forall|i: int| 0 <= i < args@.len() ==> #[trigger] model[i] == args@[i]@);
    let gs = args.len() > 0 && is_arg(&args[0], "--gs");
    let at: usize = if gs {
        1
    } else {
        0
    };
    if args.len() < at + 2 {
        return None;
    }
    let path = args[at].clone();
    let out_path = args[at + 1].clone();
    let input = if is_arg(&path, "--dual") {
        Input::Dual
    } else if is_arg(&path, "--demo") {
        Input::Demo { yaw: arg_at(args, at + 2), pitch: arg_at(args, at + 3) }
    } else if ends_with(path.as_str(), ".ply") {
        if at + 2 >= args.len() || is_arg(&args[at + 2], "--orbit") {
            Input::PlyOrbit { path, yaw: arg_at(args, at + 3), pitch: arg_at(args, at + 4) }
        } else {
            Input::PlyView { path, view: args[at + 2].clone() }
        }
    } else {
        Input::Scene { path }
    };
    Some(Job { gs, input, out_path })
}

/// Whether the interactive viewer is to show a file: its first argument, if that is the name of a
/// `.ply` file.
pub open spec fn shows_file(arg: Option<Seq<char>>) -> bool {
    arg is Some && has_suffix(arg->0, ".ply"@)
}

/// Whether the interactive viewer, given this first argument, is to show a file.
pub fn load_scene(arg: &Option<String>) -> (file: bool)
    ensures
        file == shows_file(optional(*arg)),
{
    match arg {
        Some(path) => ends_with(path.as_str(), ".ply"),
        None => false,
    }
}

/// What the interactive viewer begins with.
#[derive(Clone, Copy, Debug, PartialEq, Eq, Structural)]
pub enum FirstScene {
    /// The file that its first argument names.
    File,
    /// The built-in scene of three gaussians.
    Synthetic,
    /// The demo scene, in place of a file that could not be read.
    Demo,
}

/// What the interactive viewer, given this first argument, is to begin with: the file, if the
/// argument names one, or else the synthetic scene.
pub fn first_scene(arg: &Option<String>) -> (scene: FirstScene)
    ensures
        scene == if shows_file(optional(*arg)) {
            FirstScene::File
        } else {
            FirstScene::Synthetic
        },
{
    if load_scene(arg) {
        FirstScene::File
    } else {
        FirstScene::Synthetic
    }
}

impl FirstScene {
    /// What the viewer begins with instead, where a file could not be read.
    pub fn without_file(self) -> (scene: FirstScene)
        ensures
            scene == if self is File {
                FirstScene::Demo
            } else {
                self
            },
    {
        match self {
            FirstScene::File => FirstScene::Demo,
            _ => self,
        }
    }
}

/// A leading `--gs` changes how the headless renderer composites, and nothing else.
pub proof fn lemma_gs_flag(args: Seq<Seq<char>>)
    requires
        args.len() > 0 ==> args[0] != "--gs"@,
    ensures
        job_of(seq!["--gs"@] + args) is Some <==> job_of(args) is Some,
        job_of(args) is Some ==> !(job_of(args)->0).gs && job_of(seq!["--gs"@] + args) == Some(
            JobModel { gs: true, ..job_of(args)->0 },
        ),
{
    let with_flag = seq!["--gs"@] + args;
    assert(forall|i: int| 0 <= i < args.len() ==> with_flag[i + 1] == args[i]);
    if args.len() >= 2 {
        assert(with_flag[2] == args[1]);
        if args.len() >= 3 {
            assert(with_flag[3] == args[2]);
        }
        if args.len() >= 4 {
            assert(with_flag[4] == args[3]);
        }
        if args.len() >= 5 {
            assert(with_flag[5] == args[4]);
        }
    }
}

/// A text ends with a suffix exactly where it is something and then the suffix.
pub proof fn lemma_suffix(text: Seq<char>, front: Seq<char>, suffix: Seq<char>)
    ensures
        has_suffix(front + suffix, suffix),
        has_suffix(text, suffix) ==> text == text.take(text.len() - suffix.len()) + suffix,
{
    assert((front + suffix).skip(front.len() as int) =~= suffix);
    if has_suffix(text, suffix) {
        let n = text.len() - suffix.len();
        assert(text =~= text.take(n) + text.skip(n));
    }
}

/// An optional text says what the text says.
pub proof fn lemma_optional(text: Option<String>)
    ensures
        optional(text) is Some <==> text is Some,
        text is Some ==> optional(text)->0 == text->0@,
{
}

/// What is asked for is what the input says: no text of it is lost or changed.
pub proof fn lemma_job_model(job: Job)
    ensures
        job@.gs == job.gs,
        job@.out_path == job.out_path@,
        job.input is Dual <==> job@.input is Dual,
        job.input is Demo <==> job@.input is Demo,
        job.input is PlyOrbit <==> job@.input is PlyOrbit,
        job.input is PlyView <==> job@.input is PlyView,
        job.input is Scene <==> job@.input is Scene,
        job.input matches Input::Demo { yaw, pitch } ==> job@.input == (InputModel::Demo {
            yaw: optional(yaw),
            pitch: optional(pitch),
        }),
        job.input matches Input::PlyOrbit { path, yaw, pitch } ==> job@.input == (
        InputModel::PlyOrbit { path: path@, yaw: optional(yaw), pitch: optional(pitch) }),
        job.input matches Input::PlyView { path, view } ==> job@.input == (InputModel::PlyView {
            path: path@,
            view: view@,
        }),
        job.input matches Input::Scene { path } ==> job@.input == (InputModel::Scene {
            path: path@,
        }),
{
}

/// Without an input and an output nothing is asked for, with both something is.
pub proof fn lemma_enough_arguments(args: Seq<Seq<char>>)
    ensures
        args.len() < 2 ==> job_of(args) is None,
        args.len() == 2 && args[0] == "--gs"@ ==> job_of(args) is None,
        args.len() >= 2 && args[0] != "--gs"@ ==> job_of(args) is Some,
        args.len() >= 3 ==> job_of(args) is Some,
{
}

/// A `.ply` file and `--orbit`: the camera is put in front of the file, and what follows is the
/// yaw and then the pitch, whatever they say. Further arguments say nothing.
pub proof fn lemma_orbit_arguments(
    stem: Seq<char>,
    out: Seq<char>,
    yaw: Seq<char>,
    pitch: Seq<char>,
    more: Seq<Seq<char>>,
)
    ensures
        ({
            let path = stem + ".ply"@;
            let plain = InputModel::PlyOrbit { path, yaw: None, pitch: None };
            let orbit = seq![path, out, "--orbit"@];
            &&& job_of(seq![path, out]) == Some(
                JobModel { gs: false, input: plain, out_path: out },
            )
            &&& job_of(orbit) == Some(JobModel { gs: false, input: plain, out_path: out })
            &&& job_of(orbit.push(yaw)) == Some(
                JobModel {
                    gs: false,
                    input: InputModel::PlyOrbit { path, yaw: Some(yaw), pitch: None },
                    out_path: out,
                },
            )
            &&& job_of(orbit.push(yaw).push(pitch) + more) == Some(
                JobModel {
                    gs: false,
                    input: InputModel::PlyOrbit { path, yaw: Some(yaw), pitch: Some(pitch) },
                    out_path: out,
                },
            )
        }),
{
    let path = stem + ".ply"@;
    lemma_ply_path(stem);
    let all = seq![path, out, "--orbit"@].push(yaw).push(pitch) + more;
    assert(all[0] == path && all[1] == out && all[2] == "--orbit"@ && all[3] == yaw && all[4]
        == pitch);
}

/// A `.ply` file and the name of another file: the camera and the background are those of the
/// other file. Further arguments say nothing.
pub proof fn lemma_view_arguments(
    stem: Seq<char>,
    out: Seq<char>,
    view: Seq<char>,
    more: Seq<Seq<char>>,
)
    requires
        view != "--orbit"@,
    ensures
        job_of(seq![stem + ".ply"@, out, view] + more) == Some(
            JobModel {
                gs: false,
                input: InputModel::PlyView { path: stem + ".ply"@, view },
                out_path: out,
            },
        ),
{
    lemma_ply_path(stem);
    let all = seq![stem + ".ply"@, out, view] + more;
    assert(all[0] == stem + ".ply"@ && all[1] == out && all[2] == view);
}

/// A file that is no `.ply` file is a scene of its own. Further arguments say nothing.
pub proof fn lemma_scene_arguments(path: Seq<char>, out: Seq<char>, more: Seq<Seq<char>>)
    requires
        path != "--gs"@,
        path != "--dual"@,
        path != "--demo"@,
        path.len() < 4 || path.skip(path.len() - 4) != ".ply"@,
    ensures
        job_of(seq![path, out] + more) == Some(
            JobModel { gs: false, input: InputModel::Scene { path }, out_path: out },
        ),
{
    reveal_strlit(".ply");
    let all = seq![path, out] + more;
    assert(all[0] == path && all[1] == out);
}

/// `--dual` asks for both panes, and `--demo` for the demo scene, with what follows the output as
/// yaw and pitch, whatever they say.
pub proof fn lemma_built_in_arguments(
    out: Seq<char>,
    yaw: Seq<char>,
    pitch: Seq<char>,
    more: Seq<Seq<char>>,
)
    ensures
        job_of(seq!["--dual"@, out] + more) == Some(
            JobModel { gs: false, input: InputModel::Dual, out_path: out },
        ),
        job_of(seq!["--demo"@, out]) == Some(
            JobModel {
                gs: false,
                input: InputModel::Demo { yaw: None, pitch: None },
                out_path: out,
            },
        ),
        job_of(seq!["--demo"@, out, yaw]) == Some(
            JobModel {
                gs: false,
                input: InputModel::Demo { yaw: Some(yaw), pitch: None },
                out_path: out,
            },
        ),
        job_of(seq!["--demo"@, out, yaw, pitch] + more) == Some(
            JobModel {
                gs: false,
                input: InputModel::Demo { yaw: Some(yaw), pitch: Some(pitch) },
                out_path: out,
            },
        ),
{
    reveal_strlit("--dual");
    reveal_strlit("--demo");
    reveal_strlit("--gs");
    assert("--dual"@.len() == 6 && "--demo"@.len() == 6 && "--gs"@.len() == 4);
    assert("--dual"@[3] == 'u' && "--demo"@[3] == 'e');
    let dual = seq!["--dual"@, out] + more;
    assert(dual[0] == "--dual"@ && dual[1] == out);
    let demo = seq!["--demo"@, out, yaw, pitch] + more;
    assert(demo[0] == "--demo"@ && demo[1] == out && demo[2] == yaw && demo[3] == pitch);
}

/// The viewer shows a file exactly where its first argument is a name that ends in `.ply`.
pub proof fn lemma_shown_file(arg: Option<Seq<char>>, stem: Seq<char>)
    ensures
        shows_file(Some(stem + ".ply"@)),
        shows_file(arg) <==> arg is Some && arg->0.len() >= 4 && arg->0.skip(arg->0.len() - 4)
            == ".ply"@,
{
    reveal_strlit(".ply");
    lemma_suffix(stem, stem, ".ply"@);
}

proof fn lemma_ply_path(stem: Seq<char>)
    ensures
        has_suffix(stem + ".ply"@, ".ply"@),
        stem + ".ply"@ != "--gs"@,
        stem + ".ply"@ != "--dual"@,
        stem + ".ply"@ != "--demo"@,
{
    reveal_strlit(".ply");
    reveal_strlit("--dual");
    reveal_strlit("--demo");
    reveal_strlit("--gs");
    let path = stem + ".ply"@;
    lemma_suffix(path, stem, ".ply"@);
    assert(path[path.len() - 1] == 'y');
    assert("--gs"@[3] == 's' && "--dual"@[5] == 'l' && "--demo"@[5] == 'o');
}

} // verus!
