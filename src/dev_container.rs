//! Dev container support: the docker command lines that bring a container
//! up, and the remote user read from an image's metadata.

use vstd::prelude::*;
use vstd::string::StringExecFns;

verus! {

/// Why a dev container step could not be carried out.
#[derive(Clone, Copy, Debug, PartialEq, Eq, Structural)]
pub enum DevContainerError {
    DevContainerParseFailed,
    UnableToInspectDockerImage,
    UnmappedError,
}

/// The parts of a `devcontainer.json` that are read.
pub struct DevContainer {
    pub image: Option<String>,
}

/// The labels of an image's configuration; each metadata entry is a map,
/// held as a list of key and value pairs in which no key repeats
/// (`metadata_wf`).
pub struct DockerConfigLabels {
    pub metadata: Option<Vec<Vec<(String, String)>>>,
}

/// The configuration part of `docker inspect` output.
pub struct DockerInspectConfig {
    pub labels: DockerConfigLabels,
}

/// The output of `docker inspect` for an image.
pub struct DockerInspect {
    pub config: DockerInspectConfig,
}

/// A command line: the program and its arguments.
pub struct DockerCommand {
    pub program: String,
    pub args: Vec<String>,
}

/// The script that keeps a started container alive until it is stopped.
pub const CONTAINER_SCRIPT: &'static str = "echo Container started\ntrap \"exit 0\" 15\nexec \"$@\"\nwhile sleep 1 & wait $!; do :; done";

/// The docker executable.
pub fn docker_cli() -> (r: &'static str)
    ensures
        r@ == "docker"@,
{
    "docker"
}

/// The text of each string in turn.
pub open spec fn strings_view(v: Seq<String>) -> Seq<Seq<char>> {
    v.map_values(|s: String| s@)
}

/// The value stored under `key` in the first pair that has it.
pub open spec fn lookup(entries: Seq<(String, String)>, key: Seq<char>) -> Option<Seq<char>>
    decreases entries.len(),
{
    if entries.len() == 0 {
        None
    } else if entries[0].0@ == key {
        Some(entries[0].1@)
    } else {
        lookup(entries.drop_first(), key)
    }
}

/// No metadata entry repeats a key.
pub open spec fn metadata_wf(metadata: Seq<Vec<(String, String)>>) -> bool {
    forall|e: int, a: int, b: int|
        0 <= e < metadata.len() && 0 <= a < b < metadata[e]@.len() ==> #[trigger] metadata[e]@[a].0@
            != #[trigger] metadata[e]@[b].0@
}

/// In an entry whose keys do not repeat, the first pair with a key is the
/// only one: the lookup gives the value stored under the key.
pub proof fn lemma_lookup_finds_entry(entries: Seq<(String, String)>, key: Seq<char>, i: int)
    requires
        forall|a: int, b: int| 0 <= a < b < entries.len() ==> #[trigger] entries[a].0@ != #[trigger] entries[b].0@,
        0 <= i < entries.len(),
        entries[i].0@ == key,
    ensures
        lookup(entries, key) == Some(entries[i].1@),
    decreases entries.len(),
{
    if entries[0].0@ != key {
        let rest = entries.drop_first();
        assert forall|a: int, b: int| 0 <= a < b < rest.len() implies #[trigger] rest[a].0@ != #[trigger] rest[b].0@ by {
            assert(rest[a] == entries[a + 1] && rest[b] == entries[b + 1]);
        }
        assert(rest[i - 1] == entries[i]);
        lemma_lookup_finds_entry(rest, key, i - 1);
    } else if i > 0 {
        assert(entries[0].0@ != entries[i].0@);
    }
}

/// The `remoteUser` of the first metadata entry that sets one.
pub open spec fn remote_user(metadata: Seq<Vec<(String, String)>>) -> Option<Seq<char>>
    decreases metadata.len(),
{
    if metadata.len() == 0 {
        None
    } else {
        match lookup(metadata[0]@, "remoteUser"@) {
            Some(user) => Some(user),
            None => remote_user(metadata.drop_first()),
        }
    }
}

fn lookup_key(entries: &Vec<(String, String)>, key: &String) -> (r: Option<String>)
    ensures
        match r {
            Some(v) => lookup(entries@, key@) == Some(v@),
            None => lookup(entries@, key@) is None,
        },
{
    let mut i: usize = 0;
    assert(entries@.skip(0) =~= entries@);
    while i < entries.len()
        invariant
            i <= entries@.len(),
            lookup(entries@, key@) == lookup(entries@.skip(i as int), key@),
        decreases entries@.len() - i,
    {
        assert(entries@.skip(i as int).drop_first() =~= entries@.skip(i + 1));
        assert(entries@.skip(i as int)[0] == entries@[i as int]);
        if entries[i].0 == *key {
            return Some(entries[i].1.clone());
        }
        i = i + 1;
    }
    None
}

/// The remote user that an image's metadata names: the `remoteUser` of the
/// first metadata entry that sets one. An error where there is no metadata
/// or no entry sets it.
pub fn get_remote_user_from_config(config: &DockerInspect) -> (r: Result<String, DevContainerError>)
    ensures
        match config.config.labels.metadata {
            None => r == Err::<String, DevContainerError>(DevContainerError::UnmappedError),
            Some(metadata) => match remote_user(metadata@) {
                Some(user) => r is Ok && r->Ok_0@ == user,
                None => r == Err::<String, DevContainerError>(DevContainerError::UnmappedError),
            },
        },
{
    let metadata = match &config.config.labels.metadata {
        Some(metadata) => metadata,
        None => return Err(DevContainerError::UnmappedError),
    };
    assert(config.config.labels.metadata == Some(*metadata));
    let key = "remoteUser".to_owned();
    let mut i: usize = 0;
    assert(metadata@.skip(0) =~= metadata@);
    while i < metadata.len()
        invariant
            config.config.labels.metadata == Some(*metadata),
            key@ == "remoteUser"@,
            i <= metadata@.len(),
            remote_user(metadata@) == remote_user(metadata@.skip(i as int)),
        decreases metadata@.len() - i,
    {
        assert(metadata@.skip(i as int).drop_first() =~= metadata@.skip(i + 1));
        assert(metadata@.skip(i as int)[0] == metadata@[i as int]);
        match lookup_key(&metadata[i], &key) {
            Some(user) => {
                assert(lookup(metadata@.skip(i as int)[0]@, "remoteUser"@) == Some(user@));
                assert(remote_user(metadata@.skip(i as int)) == Some(user@));
                return Ok(user);
            },
            None => {},
        }
        i = i + 1;
    }
    Err(DevContainerError::UnmappedError)
}

/// A `docker` command line with the given arguments.
fn docker_command(args: Vec<String>) -> (r: DockerCommand)
    ensures
        r.program@ == "docker"@,
        r.args@ == args@,
{
    DockerCommand { program: docker_cli().to_owned(), args }
}

/// `docker <verb> <image>`, for the image of `devcontainer`.
fn image_command(devcontainer: &DevContainer, verb: &str) -> (r: Result<DockerCommand, DevContainerError>)
    ensures
        match devcontainer.image {
            None => r == Err::<DockerCommand, DevContainerError>(DevContainerError::UnableToInspectDockerImage),
            Some(image) => r is Ok && r->Ok_0.program@ == "docker"@ && strings_view(r->Ok_0.args@) == seq![
                verb@,
                image@,
            ],
        },
{
    match &devcontainer.image {
        None => Err(DevContainerError::UnableToInspectDockerImage),
        Some(image) => {
            let mut args: Vec<String> = Vec::new();
            args.push(verb.to_owned());
            args.push(image.clone());
            assert(strings_view(args@) =~= seq![verb@, image@]);
            Ok(docker_command(args))
        },
    }
}

/// `docker pull <image>` for the dev container's image.
pub fn docker_pull_for_devcontainer(devcontainer: &DevContainer) -> (r: Result<DockerCommand, DevContainerError>)
    ensures
        match devcontainer.image {
            None => r == Err::<DockerCommand, DevContainerError>(DevContainerError::UnableToInspectDockerImage),
            Some(image) => r is Ok && r->Ok_0.program@ == "docker"@ && strings_view(r->Ok_0.args@) == seq![
                "pull"@,
                image@,
            ],
        },
{
    image_command(devcontainer, "pull")
}

/// `docker inspect <image>` for the dev container's image.
pub fn create_docker_inspect_for_image(devcontainer: &DevContainer) -> (r: Result<DockerCommand, DevContainerError>)
    ensures
        match devcontainer.image {
            None => r == Err::<DockerCommand, DevContainerError>(DevContainerError::UnableToInspectDockerImage),
            Some(image) => r is Ok && r->Ok_0.program@ == "docker"@ && strings_view(r->Ok_0.args@) == seq![
                "inspect"@,
                image@,
            ],
        },
{
    image_command(devcontainer, "inspect")
}

/// The value of a `--filter` option that selects containers whose label
/// `key` is `value`.
fn label_filter(key: &str, value: &str) -> (r: String)
    ensures
        r@ == "label="@ + key@ + "="@ + value@,
{
    let mut r = "label=".to_owned();
    r.append(key);
    r.append("=");
    r.append(value);
    r
}

/// The arguments that filter containers by each label in turn.
pub open spec fn filter_args(labels: Seq<(String, String)>) -> Seq<Seq<char>>
    decreases labels.len(),
{
    if labels.len() == 0 {
        seq![]
    } else {
        let last = labels.last();
        filter_args(labels.drop_last()) + seq!["--filter"@, "label="@ + last.0@ + "="@ + last.1@]
    }
}

/// `docker ps -q -a`, filtered by each of the labels, if any.
pub fn create_docker_query_containers(filter_labels: Option<Vec<(String, String)>>) -> (r: Result<
    DockerCommand,
    DevContainerError,
>)
    ensures
        r is Ok,
        r->Ok_0.program@ == "docker"@,
        strings_view(r->Ok_0.args@) == seq!["ps"@, "-q"@, "-a"@] + match filter_labels {
            Some(labels) => filter_args(labels@),
            None => seq![],
        },
{
    let mut args: Vec<String> = Vec::new();
    args.push("ps".to_owned());
    args.push("-q".to_owned());
    args.push("-a".to_owned());
    let ghost base = seq!["ps"@, "-q"@, "-a"@];
    assert(strings_view(args@) =~= base);
    match &filter_labels {
        Some(labels) => {
            let mut i: usize = 0;
            assert(labels@.take(0) =~= Seq::<(String, String)>::empty());
            while i < labels.len()
                invariant
                    i <= labels@.len(),
                    strings_view(args@) == base + filter_args(labels@.take(i as int)),
                decreases labels@.len() - i,
            {
                let ghost prev = args@;
                args.push("--filter".to_owned());
                args.push(label_filter(labels[i].0.as_str(), labels[i].1.as_str()));
                assert(labels@.take(i + 1).drop_last() =~= labels@.take(i as int));
                assert(strings_view(args@) =~= strings_view(prev) + seq![
                    "--filter"@,
                    "label="@ + labels@[i as int].0@ + "="@ + labels@[i as int].1@,
                ]);
                i = i + 1;
            }
            assert(labels@.take(labels@.len() as int) =~= labels@);
        },
        None => {
            assert(strings_view(args@) =~= base + seq![]);
        },
    }
    Ok(docker_command(args))
}

/// The final component of a path, as std's `Path::file_name` gives it.
pub uninterp spec fn path_file_name(path: Seq<char>) -> Option<Seq<char>>;

/// Relies on std's `Path::file_name`: the final component of the path, if
/// there is one, here read as text.
#[verifier::external_body]
fn file_name(path: &str) -> (r: Option<String>)
    ensures
        match r {
            Some(name) => path_file_name(path@) == Some(name@),
            None => path_file_name(path@) is None,
        },
{
    std::path::Path::new(path).file_name().map(|name| name.to_string_lossy().into_owned())
}

/// The folder in the container where the project named `name` is mounted.
fn workspace_folder(name: &str) -> (r: String)
    ensures
        r@ == "/workspaces/"@ + name@,
{
    let mut r = "/workspaces/".to_owned();
    r.append(name);
    r
}

/// A bind mount of `source` on `target`, as docker's `--mount` option value.
fn bind_mount(source: &str, target: &str) -> (r: String)
    ensures
        r@ == "type=bind,source="@ + source@ + ",target="@ + target@ + ",consistency=cached"@,
{
    let mut r = "type=bind,source=".to_owned();
    r.append(source);
    r.append(",target=");
    r.append(target);
    r.append(",consistency=cached");
    r
}

/// The folder in the container where the project named `name` is mounted.
pub open spec fn workspace_folder_of(name: Seq<char>) -> Seq<char> {
    "/workspaces/"@ + name
}

/// The folder in the container where the project at
/// `local_project_directory` is mounted: `/workspaces/` and the directory's
/// final component; none where the directory has no final component.
pub fn remote_workspace_folder(local_project_directory: &str) -> (r: Option<String>)
    ensures
        match path_file_name(local_project_directory@) {
            Some(name) => r is Some && r->Some_0@ == workspace_folder_of(name),
            None => r is None,
        },
{
    match file_name(local_project_directory) {
        Some(name) => Some(workspace_folder(name.as_str())),
        None => None,
    }
}

/// The arguments of `docker run` for a project directory whose final
/// component is `name`.
pub open spec fn run_args(image: Seq<char>, directory: Seq<char>, name: Seq<char>) -> Seq<Seq<char>> {
    seq![
        "run"@,
        "--sig-proxy=false"@,
        "-a"@,
        "STDOUT"@,
        "-a"@,
        "STDERR"@,
        "--mount"@,
        "type=bind,source="@ + directory + ",target="@ + workspace_folder_of(name) + ",consistency=cached"@,
        "--entrypoint"@,
        "/bin/sh"@,
        image,
        "-c"@,
        CONTAINER_SCRIPT@,
        "-"@,
    ]
}

/// `docker run` for the dev container's image, with the project directory
/// mounted under `/workspaces/<project_name>`, where `project_name` is the
/// final component of the directory. An error where there is no image or no
/// project name.
pub fn docker_run_command_for(
    devcontainer: &DevContainer,
    local_project_directory: &str,
    project_name: Option<String>,
) -> (r: Result<DockerCommand, DevContainerError>)
    ensures
        match (devcontainer.image, project_name) {
            (Some(image), Some(name)) => r is Ok && r->Ok_0.program@ == "docker"@ && strings_view(r->Ok_0.args@)
                == run_args(image@, local_project_directory@, name@),
            _ => r == Err::<DockerCommand, DevContainerError>(DevContainerError::UnmappedError),
        },
{
    let image = match &devcontainer.image {
        Some(image) => image,
        None => return Err(DevContainerError::UnmappedError),
    };
    let name = match project_name {
        Some(name) => name,
        None => return Err(DevContainerError::UnmappedError),
    };
    let remote_workspace_folder = workspace_folder(name.as_str());
    let mut args: Vec<String> = Vec::new();
    args.push("run".to_owned());
    args.push("--sig-proxy=false".to_owned());
    args.push("-a".to_owned());
    args.push("STDOUT".to_owned());
    args.push("-a".to_owned());
    args.push("STDERR".to_owned());
    args.push("--mount".to_owned());
    args.push(bind_mount(local_project_directory, remote_workspace_folder.as_str()));
    args.push("--entrypoint".to_owned());
    args.push("/bin/sh".to_owned());
    args.push(image.clone());
    args.push("-c".to_owned());
    args.push(CONTAINER_SCRIPT.to_owned());
    args.push("-".to_owned());
    assert(strings_view(args@) =~= run_args(image@, local_project_directory@, name@));
    Ok(docker_command(args))
}

/// `docker run` for the dev container's image with the project directory
/// mounted in the container; the project's name is the directory's final
/// component.
pub fn create_docker_run_command(devcontainer: &DevContainer, local_project_directory: &str) -> (r: Result<
    DockerCommand,
    DevContainerError,
>)
    ensures
        match (devcontainer.image, path_file_name(local_project_directory@)) {
            (Some(image), Some(name)) => r is Ok && r->Ok_0.program@ == "docker"@ && strings_view(r->Ok_0.args@)
                == run_args(image@, local_project_directory@, name),
            _ => r == Err::<DockerCommand, DevContainerError>(DevContainerError::UnmappedError),
        },
{
    let name = file_name(local_project_directory);
    docker_run_command_for(devcontainer, local_project_directory, name)
}

} // verus!
