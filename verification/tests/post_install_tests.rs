use promscale::post_install::{
    add_version_to_install_script, get_current_version, get_field_val, get_quoted_field,
    get_upgradeable_from, remove_module_path_from_control_file,
};
use promscale::postgres_container::{
    postgres_image_uri, retry_backoff_secs, retry_gives_up, ImageOrigin, PgVersion,
};
use promscale::type_builder::SerializationType;

fn control_file() -> &'static str {
    "# promscale extension\ncomment = 'Promscale support functions'\ndefault_version = '0.5.4'\nmodule_pathname = '$libdir/promscale'\nupgradeable_from = '0.5.0, 0.5.1,0.5.2'\nrelocatable = false\n"
}

#[test]
fn quoted_field_reads_the_value_between_quotes() {
    assert_eq!(
        get_quoted_field("default_version = '0.5.4'"),
        Some(String::from("0.5.4"))
    );
    assert_eq!(get_quoted_field("x = y"), Some(String::from("y")));
    assert_eq!(get_quoted_field("no assignment here"), None);
    assert_eq!(get_quoted_field("empty = ''"), None);
}

#[test]
fn field_val_takes_the_first_line_mentioning_the_field() {
    assert_eq!(
        get_field_val(control_file(), "default_version"),
        Some(String::from("0.5.4"))
    );
    assert_eq!(get_field_val(control_file(), "no_such_field"), None);
}

#[test]
fn current_version_comes_from_the_control_file() {
    assert_eq!(
        get_current_version(control_file()),
        Some(String::from("0.5.4"))
    );
}

#[test]
fn upgradeable_from_is_split_and_trimmed() {
    let versions = get_upgradeable_from(control_file()).unwrap();
    assert_eq!(
        versions,
        vec![
            String::from("0.5.0"),
            String::from("0.5.1"),
            String::from("0.5.2")
        ]
    );
}

#[test]
fn module_pathname_lines_are_blanked() {
    let out = remove_module_path_from_control_file(control_file());
    assert_eq!(
        out,
        "# promscale extension\ncomment = 'Promscale support functions'\ndefault_version = '0.5.4'\n\nupgradeable_from = '0.5.0, 0.5.1,0.5.2'\nrelocatable = false\n"
    );
}

#[test]
fn install_scripts_get_the_versioned_module_path() {
    let script = "CREATE FUNCTION f()\nAS 'MODULE_PATHNAME', 'f_wrapper';\nSELECT 1;\n";
    let out = add_version_to_install_script(script, "0.5.4");
    assert_eq!(
        out,
        "CREATE FUNCTION f()\nAS '$libdir/promscale-0.5.4', 'f_wrapper';\nSELECT 1;\n"
    );
}

#[test]
fn image_uris_name_origin_and_version() {
    assert_eq!(
        postgres_image_uri(ImageOrigin::Latest, PgVersion::V14),
        "timescaledev/promscale-extension:latest-ts2.7.0-pg14"
    );
    assert_eq!(
        postgres_image_uri(ImageOrigin::Local, PgVersion::V12),
        "local/dev_promscale_extension:head-ts2-pg12"
    );
    assert_eq!(
        postgres_image_uri(ImageOrigin::Master, PgVersion::V13),
        "ghcr.io/timescale/dev_promscale_extension:master-ts2-pg13"
    );
}

#[test]
fn version_numbers_parse_and_print() {
    assert!(matches!(PgVersion::try_from("14"), Ok(PgVersion::V14)));
    assert!(matches!(PgVersion::try_from("13"), Ok(PgVersion::V13)));
    assert!(matches!(PgVersion::try_from("12"), Ok(PgVersion::V12)));
    let err = PgVersion::try_from("11").unwrap_err();
    assert_eq!(err, "Unknown postgres version 11");
    assert_eq!(PgVersion::V14.as_str(), "14");
}

#[test]
fn there_is_one_serialization_layout() {
    let t = SerializationType::Default;
    assert_eq!(t, SerializationType::Default);
}

#[test]
fn retry_backoff_doubles_from_one_second() {
    assert_eq!(retry_backoff_secs(1), 1);
    assert_eq!(retry_backoff_secs(2), 2);
    assert_eq!(retry_backoff_secs(3), 4);
    assert_eq!(retry_backoff_secs(10), 512);
    assert_eq!(retry_backoff_secs(64), 1u64 << 63);
    assert!(!retry_gives_up(1, 3));
    assert!(!retry_gives_up(2, 3));
    assert!(retry_gives_up(3, 3));
}
