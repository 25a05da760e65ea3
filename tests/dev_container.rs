use document_symbols::dev_container::{
    create_docker_inspect_for_image, create_docker_query_containers, create_docker_run_command, docker_cli,
    docker_pull_for_devcontainer, docker_run_command_for, get_remote_user_from_config, remote_workspace_folder,
    DevContainer,
    DevContainerError, DockerConfigLabels, DockerInspect, DockerInspectConfig,
};

const IMAGE: &str = "mcr.microsoft.com/devcontainers/base:ubuntu";

fn inspect_with(metadata: Option<Vec<Vec<(String, String)>>>) -> DockerInspect {
    DockerInspect { config: DockerInspectConfig { labels: DockerConfigLabels { metadata } } }
}

#[test]
fn should_create_docker_inspect_command() {
    let given_devcontainer = DevContainer { image: Some(IMAGE.to_string()) };

    let docker_pull_command = docker_pull_for_devcontainer(&given_devcontainer);
    assert!(docker_pull_command.is_ok());
    let docker_pull_command = docker_pull_command.expect("ok");
    assert_eq!(docker_pull_command.program, "docker");
    assert_eq!(docker_pull_command.args, vec!["pull", IMAGE]);

    let docker_inspect_command = create_docker_inspect_for_image(&given_devcontainer);
    assert!(docker_inspect_command.is_ok());
    let docker_inspect_command = docker_inspect_command.expect("ok");
    assert_eq!(docker_inspect_command.program, "docker");
    assert_eq!(docker_inspect_command.args, vec!["inspect", IMAGE]);
}

#[test]
fn should_get_remote_user_from_devcontainer_config() {
    let metadata = vec![("remoteUser".to_string(), "vsCode".to_string())];
    let given_docker_config = inspect_with(Some(vec![metadata]));

    let remote_user = get_remote_user_from_config(&given_docker_config);

    assert!(remote_user.is_ok());
    let remote_user = remote_user.expect("ok");
    assert_eq!(&remote_user, "vsCode")
}

#[test]
fn should_create_correct_docker_run_command() {
    let given_devcontainer = DevContainer { image: Some(IMAGE.to_string()) };

    let docker_run_command = create_docker_run_command(&given_devcontainer, "/local/project_app");

    assert!(docker_run_command.is_ok());
    let docker_run_command = docker_run_command.expect("ok");
    assert_eq!(docker_run_command.program, "docker");
    assert_eq!(
        docker_run_command.args,
        vec![
            "run",
            "--sig-proxy=false",
            "-a",
            "STDOUT",
            "-a",
            "STDERR",
            "--mount",
            "type=bind,source=/local/project_app,target=/workspaces/project_app,consistency=cached",
            "--entrypoint",
            "/bin/sh",
            IMAGE,
            "-c",
            "
echo Container started
trap \"exit 0\" 15
exec \"$@\"
while sleep 1 & wait $!; do :; done
                    "
            .trim(),
            "-",
        ]
    )
}

#[test]
fn docker_cli_is_docker() {
    assert_eq!(docker_cli(), "docker");
}

#[test]
fn remote_user_comes_from_first_entry_that_sets_it() {
    let config = inspect_with(Some(vec![
        vec![("id".to_string(), "feature".to_string())],
        vec![("other".to_string(), "x".to_string()), ("remoteUser".to_string(), "first".to_string())],
        vec![("remoteUser".to_string(), "second".to_string())],
    ]));
    assert_eq!(get_remote_user_from_config(&config), Ok("first".to_string()));
}

#[test]
fn remote_user_missing_is_an_error() {
    assert_eq!(get_remote_user_from_config(&inspect_with(None)), Err(DevContainerError::UnmappedError));
    let config = inspect_with(Some(vec![vec![("id".to_string(), "feature".to_string())]]));
    assert_eq!(get_remote_user_from_config(&config), Err(DevContainerError::UnmappedError));
}

#[test]
fn commands_without_image_fail() {
    let no_image = DevContainer { image: None };
    assert_eq!(
        docker_pull_for_devcontainer(&no_image).err(),
        Some(DevContainerError::UnableToInspectDockerImage)
    );
    assert_eq!(
        create_docker_inspect_for_image(&no_image).err(),
        Some(DevContainerError::UnableToInspectDockerImage)
    );
    assert_eq!(
        create_docker_run_command(&no_image, "/local/project_app").err(),
        Some(DevContainerError::UnmappedError)
    );
}

#[test]
fn run_command_needs_a_project_name() {
    let devcontainer = DevContainer { image: Some(IMAGE.to_string()) };
    assert_eq!(
        create_docker_run_command(&devcontainer, "/").err(),
        Some(DevContainerError::UnmappedError)
    );
    let command = docker_run_command_for(&devcontainer, "/srv/code", Some("app".to_string())).expect("ok");
    assert_eq!(command.args[7], "type=bind,source=/srv/code,target=/workspaces/app,consistency=cached");
}

#[test]
fn query_containers_filters_by_each_label() {
    let command = create_docker_query_containers(None).expect("ok");
    assert_eq!(command.program, "docker");
    assert_eq!(command.args, vec!["ps", "-q", "-a"]);
    let labels = vec![
        ("devcontainer.local_folder".to_string(), "/p".to_string()),
        ("devcontainer.config_file".to_string(), "/p/c.json".to_string()),
    ];
    let command = create_docker_query_containers(Some(labels)).expect("ok");
    assert_eq!(
        command.args,
        vec![
            "ps",
            "-q",
            "-a",
            "--filter",
            "label=devcontainer.local_folder=/p",
            "--filter",
            "label=devcontainer.config_file=/p/c.json",
        ]
    );
}

#[test]
fn workspace_folder_is_named_after_the_project() {
    assert_eq!(remote_workspace_folder("/local/project_app"), Some("/workspaces/project_app".to_string()));
    assert_eq!(remote_workspace_folder("/"), None);
}
