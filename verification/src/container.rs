use vstd::prelude::*;
use crate::pathutil::seq_views;

verus! {

/// Selection of container engine to use.
#[derive(Clone, Copy, PartialEq, Eq, Structural, Debug)]
pub enum ContainerEngine {
    Podman,
    Docker,
}

/// A single step for building a container image.
pub enum ContainerBuildStep {
    Command(Vec<String>),
    WorkingDirectory(String),
    Environment(String, String),
}

/// The kind of progress event to emit for a container build step.
pub enum ContainerProgressType {
    AptInstall,
    GitClone(Option<String>),
    NinjaBuild(String),
    Generic(String),
}

/// Builds the instructions for a container image: an ordered list of
/// steps, and progress markers keyed by one-based step number. The
/// caller runs the engine on the generated container file and watches
/// its output.
pub struct Container {
    engine: ContainerEngine,
    base_image: String,
    steps: Vec<ContainerBuildStep>,
    step_progress: Vec<(usize, ContainerProgressType)>,
    first_apt: bool,
    image: Option<String>,
}

/// The base image new containers build from.
pub open spec fn spec_default_base_image() -> Seq<char> {
    "ubuntu:22.04"@
}

/// What the step at the head of a list of string slices should become.
pub open spec fn command_step_matches(step: ContainerBuildStep, parts: Seq<Seq<char>>)
    -> bool {
    match step {
        ContainerBuildStep::Command(v) => seq_views(v@) == parts,
        _ => false,
    }
}

/// The views of a slice of string slices.
pub open spec fn slice_views(parts: Seq<&str>) -> Seq<Seq<char>> {
    Seq::new(parts.len(), |i: int| parts[i]@)
}

/// The escaped form of one command argument.
pub uninterp spec fn escaped_default_of(s: Seq<char>) -> Seq<char>;

/// The rendered argument list of a command step: each argument escaped
/// and quoted, separated by commas.
pub open spec fn rendered_parts(parts: Seq<Seq<char>>) -> Seq<char>
    decreases parts.len(),
{
    if parts.len() == 0 {
        Seq::<char>::empty()
    } else if parts.len() == 1 {
        "\""@ + escaped_default_of(parts[0]) + "\""@
    } else {
        rendered_parts(parts.drop_last()) + ", \""@ + escaped_default_of(parts.last())
            + "\""@
    }
}

/// The rendered line of one build step.
pub open spec fn rendered_step(step: ContainerBuildStep) -> Seq<char> {
    match step {
        ContainerBuildStep::Command(parts) => "RUN ["@ + rendered_parts(
            crate::pathutil::seq_views(parts@),
        ) + "]\n"@,
        ContainerBuildStep::WorkingDirectory(p) => "WORKDIR "@ + p@ + "\n"@,
        ContainerBuildStep::Environment(n, v) => "ENV "@ + n@ + "="@ + v@ + "\n"@,
    }
}

/// The rendered lines of a run of build steps, in order.
pub open spec fn rendered_steps(steps: Seq<ContainerBuildStep>) -> Seq<char>
    decreases steps.len(),
{
    if steps.len() == 0 {
        Seq::<char>::empty()
    } else {
        rendered_steps(steps.drop_last()) + rendered_step(steps.last())
    }
}

/// The whole rendered container file: the base image line, then one
/// line per step.
pub open spec fn rendered_dockerfile(
    base: Seq<char>,
    steps: Seq<ContainerBuildStep>,
) -> Seq<char> {
    "FROM "@ + base + "\n"@ + rendered_steps(steps)
}

/// Escapes one command argument as the rendered command line quotes it.
///
/// Relies on `str::escape_default`: the escaped text depends on the
/// characters alone.
#[verifier::external_body]
fn escape_part(s: &str) -> (r: String)
    ensures
        r@ == escaped_default_of(s@),
{
    s.escape_default().to_string()
}

impl Container {
    /// The recorded build steps.
    pub closed spec fn spec_steps(self) -> Seq<ContainerBuildStep> {
        self.steps@
    }

    /// The recorded progress markers, keyed by step number.
    pub closed spec fn spec_progress(self) -> Seq<(usize, ContainerProgressType)> {
        self.step_progress@
    }

    /// The engine the container builds with.
    pub closed spec fn spec_engine(self) -> ContainerEngine {
        self.engine
    }

    /// The base image.
    pub closed spec fn spec_base_image(self) -> Seq<char> {
        self.base_image@
    }

    /// Whether no package installation step has been added yet.
    pub closed spec fn spec_first_apt(self) -> bool {
        self.first_apt
    }

    /// The identifier of the built image, once the caller records it.
    pub closed spec fn spec_image(self) -> Option<Seq<char>> {
        match self.image {
            Some(i) => Some(i@),
            None => None,
        }
    }

    /// Create a new set of instructions for building a container.
    pub fn new(engine: ContainerEngine) -> (r: Self)
        ensures
            r.spec_engine() == engine,
            r.spec_base_image() == spec_default_base_image(),
            r.spec_steps().len() == 0,
            r.spec_progress().len() == 0,
            r.spec_first_apt(),
            r.spec_image() is None,
    {
        Container {
            engine,
            base_image: "ubuntu:22.04".to_owned(),
            steps: Vec::new(),
            step_progress: Vec::new(),
            first_apt: true,
            image: None,
        }
    }

    /// Run a command inside the container.
    pub fn command(&mut self, parts: &[&str])
        ensures
            final(self).spec_steps().len() == old(self).spec_steps().len() + 1,
            final(self).spec_steps().take(old(self).spec_steps().len() as int) == old(
                self,
            ).spec_steps(),
            command_step_matches(final(self).spec_steps().last(), slice_views(parts@)),
            final(self).spec_progress() == old(self).spec_progress(),
            final(self).spec_first_apt() == old(self).spec_first_apt(),
            final(self).spec_engine() == old(self).spec_engine(),
            final(self).spec_base_image() == old(self).spec_base_image(),
            final(self).spec_image() == old(self).spec_image(),
    {
        let mut owned: Vec<String> = Vec::new();
        let mut i: usize = 0;
        while i < parts.len()
            invariant
                i <= parts@.len(),
                seq_views(owned@) == slice_views(parts@).take(i as int),
            decreases parts@.len() - i,
        {
            let ghost owned0 = owned@;
            proof {
                assert(seq_views(owned0).len() == owned0.len());
                assert(owned0.len() == i as int);
            }
            owned.push(parts[i].to_owned());
            proof {
                assert(owned@.len() == i + 1);
                assert(forall|k: int| 0 <= k < i ==> owned@[k] == owned0[k]);
                assert(owned@[i as int]@ == parts@[i as int]@);
                assert(seq_views(owned@) =~= seq_views(owned0).push(parts@[i as int]@));
                assert(slice_views(parts@).take(i + 1) =~= slice_views(parts@).take(
                    i as int,
                ).push(parts@[i as int]@));
            }
            i += 1;
        }
        proof {
            assert(slice_views(parts@).take(parts@.len() as int) =~= slice_views(parts@));
        }
        self.steps.push(ContainerBuildStep::Command(owned));
        proof {
            assert(self.steps@.take(old(self).steps@.len() as int) =~= old(self).steps@);
        }
    }

    /// Install packages using the system package manager. The first
    /// installation is preceded by a package list update, and progress
    /// of the installation step is monitored.
    pub fn apt_install(&mut self, packages: &[&str])
        requires
            old(self).spec_steps().len() + 2 < usize::MAX,
        ensures
            final(self).spec_steps().len() == old(self).spec_steps().len() + (
            if old(self).spec_first_apt() {
                2int
            } else {
                1int
            }),
            final(self).spec_steps().take(old(self).spec_steps().len() as int) == old(
                self,
            ).spec_steps(),
            old(self).spec_first_apt() ==> (match final(self).spec_steps()[
                old(self).spec_steps().len() as int
            ] {
                ContainerBuildStep::Command(v) => {
                    &&& v@.len() == 3
                    &&& v@[0]@ == "apt-get"@
                    &&& v@[1]@ == "update"@
                    &&& v@[2]@ == "-y"@
                },
                _ => false,
            }),
            (match final(self).spec_steps().last() {
                ContainerBuildStep::Command(v) => {
                    &&& v@.len() == 4 + packages@.len()
                    &&& v@[0]@ == "apt-get"@
                    &&& v@[1]@ == "install"@
                    &&& v@[2]@ == "--no-install-recommends"@
                    &&& v@[3]@ == "-y"@
                    &&& (forall|i: int|
                        0 <= i < packages@.len() ==> v@[4 + i]@ == (#[trigger] packages@[
                            i
                        ])@)
                },
                _ => false,
            }),
            !final(self).spec_first_apt(),
            final(self).spec_progress().len() == old(self).spec_progress().len() + 1,
            final(self).spec_progress().last() == (
                (final(self).spec_steps().len() + 1) as usize,
                ContainerProgressType::AptInstall,
            ),
            final(self).spec_progress().take(old(self).spec_progress().len() as int)
                == old(self).spec_progress(),
            final(self).spec_engine() == old(self).spec_engine(),
            final(self).spec_base_image() == old(self).spec_base_image(),
            final(self).spec_image() == old(self).spec_image(),
    {
        let ghost steps_in = self.spec_steps();
        if self.first_apt {
            // On the first installation, refresh the package list
            // first.
            let mut update_cmd: Vec<String> = Vec::new();
            update_cmd.push("apt-get".to_owned());
            update_cmd.push("update".to_owned());
            update_cmd.push("-y".to_owned());
            self.steps.push(ContainerBuildStep::Command(update_cmd));
            proof {
                assert(self.steps@.take(steps_in.len() as int) =~= steps_in);
                assert(match self.spec_steps().last() {
                    ContainerBuildStep::Command(v) => v@.len() == 3 && v@[0]@
                        == "apt-get"@ && v@[1]@ == "update"@ && v@[2]@ == "-y"@,
                    _ => false,
                });
            }
            self.first_apt = false;
        }
        let ghost steps_mid = self.spec_steps();
        let mut cmd: Vec<String> = Vec::new();
        cmd.push("apt-get".to_owned());
        cmd.push("install".to_owned());
        cmd.push("--no-install-recommends".to_owned());
        cmd.push("-y".to_owned());
        let mut i: usize = 0;
        while i < packages.len()
            invariant
                i <= packages@.len(),
                cmd@.len() == 4 + i,
                cmd@[0]@ == "apt-get"@,
                cmd@[1]@ == "install"@,
                cmd@[2]@ == "--no-install-recommends"@,
                cmd@[3]@ == "-y"@,
                forall|j: int|
                    0 <= j < i ==> cmd@[4 + j]@ == (#[trigger] packages@[j])@,
            decreases packages@.len() - i,
        {
            cmd.push(packages[i].to_owned());
            i += 1;
        }
        let ghost steps0 = self.steps@;
        self.steps.push(ContainerBuildStep::Command(cmd));
        proof {
            assert(self.steps@.take(old(self).steps@.len() as int) =~= old(self).steps@);
            if old(self).spec_first_apt() {
                assert(self.spec_steps()[steps_in.len() as int] == steps_mid.last());
            }
        }
        let mark = self.steps.len() + 1;
        self.step_progress.push((mark, ContainerProgressType::AptInstall));
    }

    /// Set the current working directory for the container.
    pub fn work_dir(&mut self, path: &str)
        ensures
            final(self).spec_steps().len() == old(self).spec_steps().len() + 1,
            final(self).spec_steps().take(old(self).spec_steps().len() as int) == old(
                self,
            ).spec_steps(),
            (final(self).spec_steps().last() matches ContainerBuildStep::WorkingDirectory(
                p,
            ) && p@ == path@),
            final(self).spec_progress() == old(self).spec_progress(),
            final(self).spec_first_apt() == old(self).spec_first_apt(),
            final(self).spec_engine() == old(self).spec_engine(),
            final(self).spec_base_image() == old(self).spec_base_image(),
            final(self).spec_image() == old(self).spec_image(),
    {
        self.steps.push(ContainerBuildStep::WorkingDirectory(path.to_owned()));
        proof {
            assert(self.steps@.take(old(self).steps@.len() as int) =~= old(self).steps@);
        }
    }

    /// Set an environment variable for the container.
    pub fn env(&mut self, name: &str, value: &str)
        ensures
            final(self).spec_steps().len() == old(self).spec_steps().len() + 1,
            final(self).spec_steps().take(old(self).spec_steps().len() as int) == old(
                self,
            ).spec_steps(),
            (final(self).spec_steps().last() matches ContainerBuildStep::Environment(
                n,
                v,
            ) && n@ == name@ && v@ == value@),
            final(self).spec_progress() == old(self).spec_progress(),
            final(self).spec_first_apt() == old(self).spec_first_apt(),
            final(self).spec_engine() == old(self).spec_engine(),
            final(self).spec_base_image() == old(self).spec_base_image(),
            final(self).spec_image() == old(self).spec_image(),
    {
        self.steps.push(
            ContainerBuildStep::Environment(name.to_owned(), value.to_owned()),
        );
        proof {
            assert(self.steps@.take(old(self).steps@.len() as int) =~= old(self).steps@);
        }
    }

    /// Monitor the progress of a source checkout for the previously
    /// added command, under the given name.
    pub fn git_clone_progress(&mut self, name: &str)
        requires
            old(self).spec_steps().len() < usize::MAX,
        ensures
            final(self).spec_steps() == old(self).spec_steps(),
            final(self).spec_progress().take(old(self).spec_progress().len() as int)
                == old(self).spec_progress(),
            final(self).spec_first_apt() == old(self).spec_first_apt(),
            final(self).spec_engine() == old(self).spec_engine(),
            final(self).spec_base_image() == old(self).spec_base_image(),
            final(self).spec_image() == old(self).spec_image(),
            final(self).spec_progress().len() == old(self).spec_progress().len() + 1,
            (final(self).spec_progress().last().0 as int == old(self).spec_steps().len()
                + 1),
            (final(self).spec_progress().last().1 matches ContainerProgressType::GitClone(
                n,
            ) && (n matches Some(s) && s@ == name@)),
    {
        let mark = self.steps.len() + 1;
        self.step_progress.push(
            (mark, ContainerProgressType::GitClone(Some(name.to_owned()))),
        );
    }

    /// Monitor the progress of a submodule checkout for the previously
    /// added command; the checkout target names the download.
    pub fn git_submodule_progress(&mut self)
        requires
            old(self).spec_steps().len() < usize::MAX,
        ensures
            final(self).spec_steps() == old(self).spec_steps(),
            final(self).spec_progress().take(old(self).spec_progress().len() as int)
                == old(self).spec_progress(),
            final(self).spec_first_apt() == old(self).spec_first_apt(),
            final(self).spec_engine() == old(self).spec_engine(),
            final(self).spec_base_image() == old(self).spec_base_image(),
            final(self).spec_image() == old(self).spec_image(),
            final(self).spec_progress().len() == old(self).spec_progress().len() + 1,
            (final(self).spec_progress().last().0 as int == old(self).spec_steps().len()
                + 1),
            final(self).spec_progress().last().1 == ContainerProgressType::GitClone(
                None::<String>,
            ),
    {
        let mark = self.steps.len() + 1;
        self.step_progress.push((mark, ContainerProgressType::GitClone(None)));
    }

    /// Monitor the progress of a ninja build for the previously added
    /// command.
    pub fn ninja_build_progress(&mut self, desc: &str)
        requires
            old(self).spec_steps().len() < usize::MAX,
        ensures
            final(self).spec_steps() == old(self).spec_steps(),
            final(self).spec_progress().take(old(self).spec_progress().len() as int)
                == old(self).spec_progress(),
            final(self).spec_first_apt() == old(self).spec_first_apt(),
            final(self).spec_engine() == old(self).spec_engine(),
            final(self).spec_base_image() == old(self).spec_base_image(),
            final(self).spec_image() == old(self).spec_image(),
            final(self).spec_progress().len() == old(self).spec_progress().len() + 1,
            (final(self).spec_progress().last().0 as int == old(self).spec_steps().len()
                + 1),
            (final(self).spec_progress().last().1 matches ContainerProgressType::NinjaBuild(
                d,
            ) && d@ == desc@),
    {
        let mark = self.steps.len() + 1;
        self.step_progress.push(
            (mark, ContainerProgressType::NinjaBuild(desc.to_owned())),
        );
    }

    /// Issue a generic progress event when the previously added command
    /// starts.
    pub fn generic_progress(&mut self, desc: &str)
        requires
            old(self).spec_steps().len() < usize::MAX,
        ensures
            final(self).spec_steps() == old(self).spec_steps(),
            final(self).spec_progress().take(old(self).spec_progress().len() as int)
                == old(self).spec_progress(),
            final(self).spec_first_apt() == old(self).spec_first_apt(),
            final(self).spec_engine() == old(self).spec_engine(),
            final(self).spec_base_image() == old(self).spec_base_image(),
            final(self).spec_image() == old(self).spec_image(),
            final(self).spec_progress().len() == old(self).spec_progress().len() + 1,
            (final(self).spec_progress().last().0 as int == old(self).spec_steps().len()
                + 1),
            (final(self).spec_progress().last().1 matches ContainerProgressType::Generic(
                d,
            ) && d@ == desc@),
    {
        let mark = self.steps.len() + 1;
        self.step_progress.push((mark, ContainerProgressType::Generic(desc.to_owned())));
    }


/// Renders the build steps into a container file: the base image
    /// line, then one line per step, command arguments escaped and
    /// quoted.
    pub fn dockerfile(&self) -> (r: String)
        ensures
            r@ == rendered_dockerfile(self.spec_base_image(), self.spec_steps()),
    {
        let mut result = crate::strutil::str_concat("FROM ", self.base_image());
        crate::strutil::string_push_char(&mut result, '\n');
        let ghost stepsg = self.spec_steps();
        let ghost head = "FROM "@ + self.spec_base_image() + "\n"@;
        proof {
            reveal_strlit("\n");
            assert(stepsg.take(0) =~= Seq::<ContainerBuildStep>::empty());
            assert(result@ =~= head + rendered_steps(stepsg.take(0)));
        }
        let steps = self.steps();
        let mut i: usize = 0;
        while i < steps.len()
            invariant
                steps@ == stepsg,
                stepsg == self.spec_steps(),
                head == "FROM "@ + self.spec_base_image() + "\n"@,
                i <= stepsg.len(),
                result@ == head + rendered_steps(stepsg.take(i as int)),
            decreases stepsg.len() - i,
        {
            proof {
                assert(stepsg.take(i + 1).drop_last() =~= stepsg.take(i as int));
                assert(stepsg.take(i + 1).last() == stepsg[i as int]);
            }
            match &steps[i] {
                ContainerBuildStep::Command(parts) => {
                    result = crate::strutil::str_concat(result.as_str(), "RUN [");
                    let ghost pv = crate::pathutil::seq_views(parts@);
                    let ghost mid0 = result@;
                    proof {
                        assert(pv.take(0) =~= Seq::<Seq<char>>::empty());
                        assert(result@ =~= mid0 + rendered_parts(pv.take(0)));
                    }
                    let mut j: usize = 0;
                    while j < parts.len()
                        invariant
                            pv == crate::pathutil::seq_views(parts@),
                            j <= pv.len(),
                            result@ == mid0 + rendered_parts(pv.take(j as int)),
                        decreases pv.len() - j,
                    {
                        proof {
                            assert(pv.take(j + 1).drop_last() =~= pv.take(j as int));
                            assert(pv.take(j + 1).last() == pv[j as int]);
                            assert(pv[j as int] == parts@[j as int]@);
                        }
                        if j > 0 {
                            result = crate::strutil::str_concat(result.as_str(), ", ");
                        }
                        crate::strutil::string_push_char(&mut result, '"');
                        let escaped = escape_part(parts[j].as_str());
                        result = crate::strutil::str_concat(
                            result.as_str(),
                            escaped.as_str(),
                        );
                        crate::strutil::string_push_char(&mut result, '"');
                        proof {
                            reveal_strlit("\"");
                            reveal_strlit(", \"");
                            reveal_strlit(", ");
                            assert(result@ =~= mid0 + rendered_parts(pv.take(j + 1)));
                        }
                        j += 1;
                    }
                    proof {
                        assert(pv.take(pv.len() as int) =~= pv);
                    }
                    result = crate::strutil::str_concat(result.as_str(), "]\n");
                    proof {
                        assert(stepsg[i as int] == ContainerBuildStep::Command(*parts));
                        assert(result@ =~= head + rendered_steps(stepsg.take(i + 1)));
                    }
                },
                ContainerBuildStep::WorkingDirectory(p) => {
                    result = crate::strutil::str_concat(result.as_str(), "WORKDIR ");
                    result = crate::strutil::str_concat(result.as_str(), p.as_str());
                    crate::strutil::string_push_char(&mut result, '\n');
                    proof {
                        reveal_strlit("\n");
                        assert(stepsg[i as int] == ContainerBuildStep::WorkingDirectory(
                            *p,
                        ));
                        assert(result@ =~= head + rendered_steps(stepsg.take(i + 1)));
                    }
                },
                ContainerBuildStep::Environment(n, v) => {
                    result = crate::strutil::str_concat(result.as_str(), "ENV ");
                    result = crate::strutil::str_concat(result.as_str(), n.as_str());
                    crate::strutil::string_push_char(&mut result, '=');
                    result = crate::strutil::str_concat(result.as_str(), v.as_str());
                    crate::strutil::string_push_char(&mut result, '\n');
                    proof {
                        reveal_strlit("\n");
                        reveal_strlit("=");
                        assert(stepsg[i as int] == ContainerBuildStep::Environment(
                            *n,
                            *v,
                        ));
                        assert(result@ =~= head + rendered_steps(stepsg.take(i + 1)));
                    }
                },
            }
            i += 1;
        }
        proof {
            assert(stepsg.take(stepsg.len() as int) =~= stepsg);
        }
        result
    }

    /// The recorded build steps, for the caller to render into a
    /// container file and run.
    pub fn steps(&self) -> (r: &Vec<ContainerBuildStep>)
        ensures
            r@ == self.spec_steps(),
    {
        &self.steps
    }

    /// The engine the container builds with.
    pub fn engine(&self) -> (r: ContainerEngine)
        ensures
            r == self.spec_engine(),
    {
        self.engine
    }

    /// The base image the container builds from.
    pub fn base_image(&self) -> (r: &str)
        ensures
            r@ == self.spec_base_image(),
    {
        self.base_image.as_str()
    }

    /// The progress marker recorded for a one-based step number, if any.
    pub fn progress_for_step(&self, step: usize) -> (r: Option<&ContainerProgressType>)
        ensures
            match r {
                Some(p) => exists|i: int|
                    0 <= i < self.spec_progress().len() && #[trigger] self.spec_progress()[
                        i
                    ] == (step, *p),
                None => true,
            },
    {
        let mut i: usize = 0;
        while i < self.step_progress.len()
            decreases self.step_progress@.len() - i,
        {
            if self.step_progress[i].0 == step {
                let r = Some(&self.step_progress[i].1);
                proof {
                    assert(self.spec_progress()[i as int] == (
                        step,
                        self.step_progress@[i as int].1,
                    ));
                }
                return r;
            }
            i += 1;
        }
        None
    }

    /// Records the identifier of the built image, as reported by the
    /// engine the caller ran.
    pub fn set_image(&mut self, image: String)
        ensures
            final(self).spec_image() == Some(image@),
            final(self).spec_steps() == old(self).spec_steps(),
            final(self).spec_progress() == old(self).spec_progress(),
    {
        self.image = Some(image);
    }

    /// The identifier of the built image.
    pub fn image(&self) -> (r: Option<&String>)
        ensures
            match r {
                Some(i) => self.spec_image() == Some(i@),
                None => self.spec_image() is None,
            },
    {
        self.image.as_ref()
    }
}

} // verus!
