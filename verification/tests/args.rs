use picotool_rs::args::strip_device_arg;

fn strip(args: &[&str]) -> Vec<String> {
    let owned: Vec<String> = args.iter().map(|s| s.to_string()).collect();
    strip_device_arg(&owned)
}

#[test]
fn removes_device_flag_and_its_value() {
    assert_eq!(
        strip(&[
            "load",
            "fw.uf2",
            "--device",
            "/dev/bus/usb/001/002",
            "--verify"
        ]),
        vec!["load", "fw.uf2", "--verify"]
    );
}

#[test]
fn removes_device_equals_form() {
    assert_eq!(
        strip(&["load", "fw.uf2", "--device=/dev/bus/usb/001/002"]),
        vec!["load", "fw.uf2"]
    );
}

#[test]
fn keeps_other_args_when_no_device() {
    assert_eq!(
        strip(&["load", "fw.uf2", "--verify", "--any-device"]),
        vec!["load", "fw.uf2", "--verify", "--any-device"]
    );
}

#[test]
fn trailing_device_flag_without_value_is_dropped() {
    assert_eq!(strip(&["load", "fw.uf2", "--device"]), vec!["load", "fw.uf2"]);
}

#[test]
fn device_value_that_looks_like_an_option_is_dropped_too() {
    assert_eq!(
        strip(&["--device", "--verify", "load", "--devices"]),
        vec!["load", "--devices"]
    );
}

#[test]
fn stripping_twice_changes_nothing_more() {
    let once = strip(&["a", "--device", "x", "--device=y", "b"]);
    let again = strip_device_arg(&once);
    assert_eq!(once, vec!["a", "b"]);
    assert_eq!(again, once);
}

#[test]
fn non_ascii_arguments_are_kept() {
    assert_eq!(strip(&["ü", "--device=é", "ß"]), vec!["ü", "ß"]);
}
