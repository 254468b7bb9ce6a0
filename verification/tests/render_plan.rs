use rdl::linked::LinkedApi;
use rdl::rdl::{_sanitize_path_to_unc, cat_context_settings};
use rdl::rdl_cli::{Cat, Render};
use rdl::render::{
    frame_file_names, render_context_settings, render_file_names, stream_type_for_file,
};
use rdl::template::{
    MissingPlaceholderError, format_frame, substitute_frame_number, substitute_frame_numbers,
};

fn render_args(files: Vec<&str>, frames: Option<&str>) -> Render {
    Render {
        file: files.iter().map(|f| f.to_string()).collect(),
        collective: None,
        cloud: false,
        progress: false,
        statistics: 0,
        threads: None,
        dry_run: true,
        force_render: false,
        frames: frames.map(|f| f.to_string()),
    }
}

#[test]
fn substitution_round_trip_with_padding() {
    let out = substitute_frame_numbers("foo.@3.nsi", &vec![7isize]).unwrap();
    assert_eq!(out, vec!["foo.007.nsi".to_string()]);
    let back: isize = out[0]
        .trim_start_matches("foo.")
        .trim_end_matches(".nsi")
        .parse()
        .unwrap();
    assert_eq!(back, 7);
}

#[test]
fn unpadded_substitution() {
    assert_eq!(substitute_frame_number("foo.@.nsi", 7), "foo.7.nsi");
    assert_eq!(substitute_frame_number("foo.@.nsi", -12), "foo.-12.nsi");
}

#[test]
fn padding_never_truncates() {
    assert_eq!(substitute_frame_number("a.@2.n", 12345), "a.12345.n");
    assert_eq!(substitute_frame_number("a.@4.n", -42), "a.-042.n");
}

#[test]
fn every_placeholder_occurrence_is_replaced() {
    assert_eq!(substitute_frame_number("x@y@z", 7), "x7y7z");
    assert_eq!(substitute_frame_number("a@2b@2", 5), "a05b05");
}

#[test]
fn zero_after_at_means_no_padding() {
    // `@0` is not a padding placeholder: the token is `@` alone and the
    // `0` stays in the name.
    assert_eq!(substitute_frame_number("foo.@0.nsi", 7), "foo.70.nsi");
}

#[test]
fn template_without_placeholder() {
    assert_eq!(substitute_frame_number("foo.nsi", 7), "foo.nsi");
    assert_eq!(
        substitute_frame_numbers("foo.nsi", &vec![1isize]),
        Err(MissingPlaceholderError)
    );
    assert_eq!(
        substitute_frame_numbers("foo.nsi", &vec![]).unwrap(),
        Vec::<String>::new()
    );
}

#[test]
fn frame_formatting() {
    assert_eq!(format_frame(0, 0), "0");
    assert_eq!(format_frame(7, 3), "007");
    assert_eq!(format_frame(-7, 3), "-07");
    assert_eq!(format_frame(isize::MIN, 0), "-9223372036854775808");
}

#[test]
fn render_plan_expands_templates_and_keeps_plain_files() {
    let args = render_args(vec!["foo.@.nsi", "bar.nsi"], Some("1-2"));
    assert_eq!(
        render_file_names(&args).unwrap(),
        vec!["foo.1.nsi".to_string(), "foo.2.nsi".to_string(), "bar.nsi".to_string()]
    );
}

#[test]
fn render_plan_without_frames() {
    let args = render_args(vec!["foo.@.nsi", "bar.nsi"], None);
    assert_eq!(render_file_names(&args).unwrap(), vec!["bar.nsi".to_string()]);
}

#[test]
fn render_plan_reports_bad_expressions() {
    let args = render_args(vec!["foo.@.nsi"], Some("1-"));
    assert!(render_file_names(&args).is_err());
}

#[test]
fn frame_file_names_expand_per_frame() {
    let files = vec!["a.@2.nsi".to_string(), "plain".to_string()];
    let frames = vec![3isize, 12];
    assert_eq!(
        frame_file_names(&files, &frames),
        vec!["a.03.nsi".to_string(), "a.12.nsi".to_string(), "plain".to_string()]
    );
}

#[test]
fn stream_type_follows_the_file_suffix() {
    assert_eq!(stream_type_for_file("scene.lua"), "lua");
    assert_eq!(stream_type_for_file("scene.nsi"), "apistream");
    assert_eq!(stream_type_for_file("lua"), "apistream");
}

#[test]
fn sanitized_paths_use_forward_slashes() {
    assert_eq!(_sanitize_path_to_unc("C:\\foo\\bar"), "//?/C:/foo/bar");
    assert_eq!(_sanitize_path_to_unc("foo\\bar"), "foo/bar");
    assert_eq!(_sanitize_path_to_unc("foo/bar"), "foo/bar");
}

#[test]
fn render_context_prefers_the_cloud() {
    assert_eq!(
        render_context_settings(true, &Some("farm".to_string())),
        Some(("cloud".to_string(), "1".to_string()))
    );
    assert_eq!(
        render_context_settings(false, &Some("farm".to_string())),
        Some(("collective".to_string(), "farm".to_string()))
    );
    assert_eq!(render_context_settings(false, &None), None);
}

#[test]
fn cat_settings_default_to_stdout() {
    let args = Cat { binary: false, gzip: false, expand: false, file: None, output: None };
    assert_eq!(
        cat_context_settings(&args),
        vec![
            ("streamfilename".to_string(), vec!["stdout".to_string()]),
            ("executeprocedurals".to_string(), vec!["apistream".to_string()]),
        ]
    );
}

#[test]
fn cat_settings_honour_every_flag() {
    let args = Cat {
        binary: true,
        gzip: true,
        expand: true,
        file: Some("scene.nsi".to_string()),
        output: Some("out.nsi".to_string()),
    };
    assert_eq!(
        cat_context_settings(&args),
        vec![
            ("streamfilename".to_string(), vec!["out.nsi".to_string()]),
            ("streamformat".to_string(), vec!["binarynsi".to_string()]),
            ("streamcompression".to_string(), vec!["gzip".to_string()]),
            (
                "executeprocedurals".to_string(),
                vec![
                    "apistream".to_string(),
                    "dynamiclibrary".to_string(),
                    "RiProcDynamicLoad".to_string()
                ]
            ),
        ]
    );
}

#[test]
fn linked_api_handle_always_constructs() {
    assert!(LinkedApi::new().is_ok());
}
