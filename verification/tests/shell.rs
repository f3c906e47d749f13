use bfc::shell::{command_result, without_output};

#[test]
fn successful_command_gives_its_output() {
    assert_eq!(command_result(true, "out".to_string(), "err".to_string()), Ok("out".to_string()));
    assert_eq!(without_output(Ok("out".to_string())), Ok(()));
}

#[test]
fn failed_command_gives_its_stderr() {
    assert_eq!(command_result(false, "out".to_string(), "err".to_string()), Err("err".to_string()));
    assert_eq!(without_output(Err("err".to_string())), Err("err".to_string()));
}
