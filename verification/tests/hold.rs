use apple_tv::device::{AppleTv, DOWN, LEFT, MEDIA, VOLUME_UP};
use apple_tv::hex::hex;
use apple_tv::host::{Args, HostCall, Instance};

/// An instance with a session already up, so `send` produces frames rather than a warning.
fn connected() -> Instance {
    let mut inst = Instance::new(1);
    inst.scratch.write = Some(hex(&[1u8; 32]));
    inst.scratch.read = Some(hex(&[2u8; 32]));
    inst.scratch.sent = Some(0);
    inst.scratch.received = Some(0);
    inst
}

fn what(key: &str) -> Args {
    let mut args = Args::new();
    args.what = Some(key.to_string());
    args
}

fn frames(calls: &[HostCall]) -> usize {
    calls
        .iter()
        .filter(|c| matches!(c, HostCall::Tx { .. }))
        .count()
}

fn warned(calls: &[HostCall]) -> bool {
    calls
        .iter()
        .any(|c| matches!(c, HostCall::Log { level, .. } if level == "warn"))
}

/// A tap is two frames: press and release. A hold is one, and the device repeats on its own until
/// the second arrives. Sending both for a hold is just a tap, and the ramp never happens.
#[test]
fn a_hold_presses_without_releasing_and_a_tap_does_both() {
    let d = AppleTv;
    let mut inst = connected();

    let tap = d.on_command(&mut inst, MEDIA, "volume_up", &Args::new());
    assert_eq!(frames(&tap), 2, "a tap is press and release");

    let mut inst = connected();
    let hold = d.on_command(&mut inst, MEDIA, "hold", &what("volume_up"));
    assert_eq!(frames(&hold), 1, "a hold presses and stops there");
    assert_eq!(AppleTv::held(&inst), Some(VOLUME_UP));

    let release = d.on_command(&mut inst, MEDIA, "release", &Args::new());
    assert_eq!(frames(&release), 1);
    assert_eq!(AppleTv::held(&inst), None, "the key is no longer held");
}

/// One finger, one button. A second hold has to let go of the first, or the first key is down
/// forever with nothing left that names it.
#[test]
fn a_second_hold_releases_the_first() {
    let d = AppleTv;
    let mut inst = connected();

    d.on_command(&mut inst, MEDIA, "hold", &what("volume_up"));
    let second = d.on_command(&mut inst, MEDIA, "hold", &what("down"));

    assert_eq!(
        frames(&second),
        2,
        "letting go of the old key and pressing the new one"
    );
    assert_eq!(AppleTv::held(&inst), Some(DOWN));
}

/// Releasing nothing is not an error: a rule that brackets a hold will do it after a reconnect
/// cleared the state.
#[test]
fn releasing_nothing_is_quiet() {
    let d = AppleTv;
    let mut inst = connected();
    let out = d.on_command(&mut inst, MEDIA, "release", &Args::new());
    assert!(out.is_empty(), "nothing to say and nothing to send");
}

/// tvOS scrubs by holding an arrow, so there is no scan key to map, and mapping it to one that
/// moves the wrong way would be worse than refusing.
#[test]
fn a_key_this_box_does_not_have_is_refused_by_name() {
    let d = AppleTv;
    let mut inst = connected();
    let out = d.on_command(&mut inst, MEDIA, "hold", &what("scan_forward"));
    assert!(warned(&out), "an unsupported key should say so");
    assert_eq!(frames(&out), 0);
    assert_eq!(AppleTv::held(&inst), None);
}

/// A dropped connection must not leave a key remembered as held: the release cannot be sent down
/// a socket that is gone, and the next connection would send one for nothing.
#[test]
fn reconnecting_forgets_a_held_key() {
    let d = AppleTv;
    let mut inst = connected();
    d.on_command(&mut inst, MEDIA, "hold", &what("left"));
    assert!(AppleTv::held(&inst).is_some());
    assert_eq!(AppleTv::held(&inst), Some(LEFT));

    d.on_bind(&mut inst);
    assert_eq!(AppleTv::held(&inst), None);
}
