//! The error type and its text.

use phaios_core::error::{Exception, PhaiosError};

#[test]
fn messages_name_the_kind_of_problem() {
    assert_eq!(
        PhaiosError::Shape("got (4, 4, 2)".into()).to_string(),
        "shape error: got (4, 4, 2)"
    );
    assert_eq!(
        PhaiosError::Parameter("eps must be >= 0".into()).to_string(),
        "parameter error: eps must be >= 0"
    );
}

#[test]
fn memory_and_device_problems_name_themselves_too() {
    assert_eq!(
        PhaiosError::Allocation("too large".into()).to_string(),
        "allocation error: too large"
    );
    assert_eq!(
        PhaiosError::Backend("no device".into()).to_string(),
        "backend error: no device"
    );
}

#[test]
fn each_kind_raises_its_own_exception() {
    assert_eq!(PhaiosError::Shape(String::new()).exception(), Exception::ValueError);
    assert_eq!(PhaiosError::Parameter(String::new()).exception(), Exception::ValueError);
    assert_eq!(PhaiosError::Allocation(String::new()).exception(), Exception::MemoryError);
    assert_eq!(PhaiosError::Backend(String::new()).exception(), Exception::RuntimeError);
}
