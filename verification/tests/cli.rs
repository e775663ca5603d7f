use nreplops_tool::cli::Tristate::{Auto, Off, On};
use nreplops_tool::cli::{ParseTristateSwitchError, Tristate};

#[test]
fn parse_tristate_switch() {
    assert_eq!("on".parse::<Tristate>(), Ok(On));
    assert_eq!("off".parse::<Tristate>(), Ok(Off));
    assert_eq!("auto".parse::<Tristate>(), Ok(Auto));

    assert_eq!("".parse::<Tristate>(), Err(ParseTristateSwitchError));
    assert_eq!(" on".parse::<Tristate>(), Err(ParseTristateSwitchError));
    assert_eq!(
        "whatever".parse::<Tristate>(),
        Err(ParseTristateSwitchError)
    );
}

#[test]
fn tristate_round_trips_through_its_text() {
    for t in [On, Off, Auto] {
        assert_eq!(t.to_string().parse::<Tristate>(), Ok(t));
    }
}

#[test]
fn tristate_to_bool_uses_the_default_only_for_auto() {
    assert!(On.to_bool(false));
    assert!(!Off.to_bool(true));
    assert!(Auto.to_bool(true));
    assert!(!Auto.to_bool(false));
}
